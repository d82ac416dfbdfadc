//! The decisions of the capture supervisor that a recording owns: when to open and
//! close the application's tap, what status to report, and which samples to hand on.
//! The supervisor never looks up another session: what it acts on is its own state.
use vstd::prelude::*;
use crate::snapshot::ResolvedApplication;
use crate::source::{ApplicationIdentity, DeviceType, SourceState};

verus! {

/// The number of samples handed on together.
pub const BATCH: usize = 1024;

/// What a resolution says, as a mathematical value.
#[verifier::ext_equal]
pub struct ResolvedView {
    pub running: bool,
    pub processes: Seq<(u32, u32)>,
    pub output_device: u32,
    pub output_sample_rate: u32,
}

impl View for ResolvedApplication {
    type V = ResolvedView;

    open spec fn view(&self) -> ResolvedView {
        ResolvedView {
            running: self.running,
            processes: self.processes@,
            output_device: self.output_device,
            output_sample_rate: self.output_sample_rate,
        }
    }
}

/// The HAL object IDs to tap for a resolution, or none when the application does not
/// run or has no audio process: an empty allowlist waits, it never taps everything.
pub open spec fn allowlist(r: ResolvedView) -> Option<Seq<u32>> {
    if !r.running || r.processes.len() == 0 {
        None
    } else {
        Some(r.processes.map_values(|p: (u32, u32)| p.0))
    }
}

pub open spec fn opt_ids_view(v: Option<Vec<u32>>) -> Option<Seq<u32>> {
    match v {
        Some(ids) => Some(ids@),
        None => None,
    }
}

/// The allowlist of the tap to open for `resolved`.
pub fn open(resolved: &ResolvedApplication) -> (r: Option<Vec<u32>>)
    ensures
        opt_ids_view(r) == allowlist(resolved@),
        r matches Some(ids) ==> ids@.len() > 0,
{
    if !resolved.running || resolved.processes.len() == 0 {
        return None;
    }
    let mut ids: Vec<u32> = Vec::new();
    let mut i: usize = 0;
    while i < resolved.processes.len()
        invariant
            i <= resolved.processes@.len(),
            ids@ == resolved.processes@.take(i as int).map_values(|p: (u32, u32)| p.0),
        decreases resolved.processes.len() - i,
    {
        ids.push(resolved.processes[i].0);
        assert(resolved.processes@.take(i + 1).map_values(|p: (u32, u32)| p.0) =~= resolved.processes@.take(
            i as int,
        ).map_values(|p: (u32, u32)| p.0).push(resolved.processes@[i as int].0));
        i += 1;
    }
    assert(resolved.processes@.take(resolved.processes.len() as int) =~= resolved.processes@);
    Some(ids)
}

/// The format in which a tapped stream is processed.
pub struct CaptureFormat {
    pub sample_rate: u32,
    pub channels: u16,
    pub device_type: DeviceType,
}

/// How to process a tapped stream of the given sample rate: one channel of system audio.
pub fn processor(stream_sample_rate: u32) -> (r: CaptureFormat)
    ensures
        r.sample_rate == stream_sample_rate,
        r.channels == 1,
        r.device_type == DeviceType::System,
{
    CaptureFormat { sample_rate: stream_sample_rate, channels: 1, device_type: DeviceType::System }
}

/// Where the supervisor stands.
#[derive(Debug, Clone, Copy, PartialEq, Eq, Structural)]
pub enum Phase {
    /// The first tap is being opened; its failure fails the start.
    Starting,
    /// A new tap is being opened after a change.
    Opening,
    /// A tap is open and its samples are handed on.
    Streaming,
    /// No tap is open; the supervisor waits for the next resolution.
    Idle,
    /// The recording ended; nothing more happens.
    Stopped,
}

/// What the supervisor is told.
pub enum SupervisorEvent {
    /// The recording is no longer recording.
    RecordingStopped,
    /// The discovery worker is gone.
    DiscoveryClosed,
    /// A fresh resolution of the application.
    Resolved(ResolvedApplication),
    /// A resolution failed, with the error's text.
    ResolveFailed(String),
    /// The tap asked for is open.
    TapOpened,
    /// The tap asked for could not be opened, with the error's text.
    TapFailed(String),
    /// A sample of the open tap (the bits of an `f32`), and whether the recording is
    /// active (not paused).
    Sample { sample: u32, active: bool },
    /// The open tap's stream ended.
    StreamEnded,
}

pub enum EventView {
    RecordingStopped,
    DiscoveryClosed,
    Resolved(ResolvedView),
    ResolveFailed(Seq<char>),
    TapOpened,
    TapFailed(Seq<char>),
    Sample { sample: u32, active: bool },
    StreamEnded,
}

impl View for SupervisorEvent {
    type V = EventView;

    open spec fn view(&self) -> EventView {
        match self {
            SupervisorEvent::RecordingStopped => EventView::RecordingStopped,
            SupervisorEvent::DiscoveryClosed => EventView::DiscoveryClosed,
            SupervisorEvent::Resolved(r) => EventView::Resolved(r@),
            SupervisorEvent::ResolveFailed(e) => EventView::ResolveFailed(e@),
            SupervisorEvent::TapOpened => EventView::TapOpened,
            SupervisorEvent::TapFailed(e) => EventView::TapFailed(e@),
            SupervisorEvent::Sample { sample, active } => EventView::Sample { sample: *sample, active: *active },
            SupervisorEvent::StreamEnded => EventView::StreamEnded,
        }
    }
}

/// A status to report for the session's source.
pub struct StatusUpdate {
    pub state: SourceState,
    pub message: Option<String>,
}

#[verifier::ext_equal]
pub struct StatusView {
    pub state: SourceState,
    pub message: Option<Seq<char>>,
}

impl View for StatusUpdate {
    type V = StatusView;

    open spec fn view(&self) -> StatusView {
        StatusView {
            state: self.state,
            message: match self.message {
                Some(m) => Some(m@),
                None => None,
            },
        }
    }
}

/// What to do after an event, in this order: close the open tap, open a tap for the
/// allowlist, report the status, hand on the batch of samples; then stop, failing the
/// start with the message if there is one.
pub struct Step {
    pub close_tap: bool,
    pub open_tap: Option<Vec<u32>>,
    pub status: Option<StatusUpdate>,
    pub flush: Option<Vec<u32>>,
    pub stop: bool,
    pub failure: Option<String>,
}

#[verifier::ext_equal]
pub struct StepView {
    pub close_tap: bool,
    pub open_tap: Option<Seq<u32>>,
    pub status: Option<StatusView>,
    pub flush: Option<Seq<u32>>,
    pub stop: bool,
    pub failure: Option<Seq<char>>,
}

impl View for Step {
    type V = StepView;

    open spec fn view(&self) -> StepView {
        StepView {
            close_tap: self.close_tap,
            open_tap: opt_ids_view(self.open_tap),
            status: match self.status {
                Some(s) => Some(s@),
                None => None,
            },
            flush: opt_ids_view(self.flush),
            stop: self.stop,
            failure: match self.failure {
                Some(m) => Some(m@),
                None => None,
            },
        }
    }
}

/// The supervisor of one recording's application capture.
pub struct Supervisor {
    name: String,
    current: ResolvedApplication,
    phase: Phase,
    pending: Vec<u32>,
}

#[verifier::ext_equal]
pub struct SupervisorView {
    pub name: Seq<char>,
    pub current: ResolvedView,
    pub phase: Phase,
    pub pending: Seq<u32>,
}

impl View for Supervisor {
    type V = SupervisorView;

    closed spec fn view(&self) -> SupervisorView {
        SupervisorView {
            name: self.name@,
            current: self.current@,
            phase: self.phase,
            pending: self.pending@,
        }
    }
}

/// Fewer than a batch of samples wait, and only while a tap streams.
pub open spec fn well_formed(s: SupervisorView) -> bool {
    s.pending.len() < BATCH && (s.phase != Phase::Streaming ==> s.pending.len() == 0)
}

pub open spec fn msg_not_running(name: Seq<char>) -> Seq<char> {
    "Open "@ + name + " before starting the recording."@
}

pub open spec fn msg_start_failed(name: Seq<char>, err: Seq<char>) -> Seq<char> {
    "Cannot capture "@ + name + ": "@ + err + ". Check system audio recording permission in System Settings."@
}

pub open spec fn msg_waiting_first(name: Seq<char>) -> Seq<char> {
    "Waiting for "@ + name + " to produce audio"@
}

pub open spec fn msg_reconnecting(name: Seq<char>) -> Seq<char> {
    "Waiting for "@ + name + " — reconnecting automatically"@
}

pub open spec fn msg_open_failed(name: Seq<char>, err: Seq<char>) -> Seq<char> {
    "Cannot capture "@ + name + ": "@ + err + ". Check system audio permission; retrying automatically."@
}

pub open spec fn msg_verify_failed(name: Seq<char>, err: Seq<char>) -> Seq<char> {
    "Cannot verify "@ + name + " audio: "@ + err + ". Retrying automatically."@
}

pub open spec fn msg_stream_ended(name: Seq<char>) -> Seq<char> {
    "Waiting for "@ + name + " — audio stream ended"@
}

/// A step that does nothing.
pub open spec fn quiet() -> StepView {
    StepView { close_tap: false, open_tap: None, status: None, flush: None, stop: false, failure: None }
}

/// A step that only reports a status.
pub open spec fn report(state: SourceState, message: Option<Seq<char>>) -> StepView {
    StepView { status: Some(StatusView { state, message }), ..quiet() }
}

/// The state without samples waiting, in the given phase.
pub open spec fn in_phase(s: SupervisorView, phase: Phase) -> SupervisorView {
    SupervisorView { phase, pending: seq![], ..s }
}

/// Tear down the old tap before anything else, then open the new allowlist or wait.
pub open spec fn reconnect(s: SupervisorView, next: ResolvedView) -> (SupervisorView, StepView) {
    let t = SupervisorView { current: next, ..s };
    match allowlist(next) {
        Some(ids) => (in_phase(t, Phase::Opening), StepView { close_tap: true, open_tap: Some(ids), ..quiet() }),
        None => (
            in_phase(t, Phase::Idle),
            StepView { close_tap: true, ..report(SourceState::Waiting, Some(msg_reconnecting(s.name))) },
        ),
    }
}

/// The supervisor's next state and step after an event.
pub open spec fn transition(s: SupervisorView, e: EventView) -> (SupervisorView, StepView) {
    if s.phase == Phase::Stopped {
        (s, StepView { stop: true, ..quiet() })
    } else {
        match e {
            EventView::RecordingStopped | EventView::DiscoveryClosed => (
                in_phase(s, Phase::Stopped),
                StepView { stop: true, ..quiet() },
            ),
            EventView::Resolved(next) => if next != s.current || s.phase != Phase::Streaming {
                reconnect(s, next)
            } else {
                (s, quiet())
            },
            EventView::ResolveFailed(err) => (
                in_phase(s, Phase::Idle),
                StepView {
                    close_tap: true,
                    ..report(SourceState::Error, Some(msg_verify_failed(s.name, err)))
                },
            ),
            EventView::TapOpened => match s.phase {
                Phase::Starting => (in_phase(s, Phase::Streaming), quiet()),
                Phase::Opening => (in_phase(s, Phase::Streaming), report(SourceState::Capturing, None)),
                _ => (s, quiet()),
            },
            EventView::TapFailed(err) => match s.phase {
                Phase::Starting => (
                    in_phase(s, Phase::Stopped),
                    StepView { stop: true, failure: Some(msg_start_failed(s.name, err)), ..quiet() },
                ),
                Phase::Opening => (
                    in_phase(s, Phase::Idle),
                    report(SourceState::Error, Some(msg_open_failed(s.name, err))),
                ),
                _ => (s, quiet()),
            },
            EventView::Sample { sample, active } => if s.phase != Phase::Streaming {
                (s, quiet())
            } else if !active {
                (in_phase(s, Phase::Streaming), quiet())
            } else if s.pending.len() + 1 >= BATCH {
                (in_phase(s, Phase::Streaming), StepView { flush: Some(s.pending.push(sample)), ..quiet() })
            } else {
                (SupervisorView { pending: s.pending.push(sample), ..s }, quiet())
            },
            EventView::StreamEnded => (
                in_phase(s, Phase::Idle),
                StepView {
                    close_tap: true,
                    ..report(SourceState::Waiting, Some(msg_stream_ended(s.name)))
                },
            ),
        }
    }
}

/// How a supervisor starts for `application` with its first resolution: it fails if
/// the application does not run; otherwise it opens the first tap, or waits for the
/// application to produce audio.
pub open spec fn starting(name: Seq<char>, initial: ResolvedView) -> Result<(SupervisorView, StepView), Seq<char>> {
    if !initial.running {
        Err(msg_not_running(name))
    } else {
        let s = SupervisorView { name, current: initial, phase: Phase::Idle, pending: seq![] };
        match allowlist(initial) {
            Some(ids) => Ok((in_phase(s, Phase::Starting), StepView { open_tap: Some(ids), ..quiet() })),
            None => Ok((s, report(SourceState::Waiting, Some(msg_waiting_first(name))))),
        }
    }
}

fn message(a: &str, name: &str, b: &str) -> (r: String)
    ensures
        r@ == a@ + name@ + b@,
{
    String::from_str(a).concat(name).concat(b)
}

fn message_with_error(a: &str, name: &str, b: &str, err: &str, c: &str) -> (r: String)
    ensures
        r@ == a@ + name@ + b@ + err@ + c@,
{
    String::from_str(a).concat(name).concat(b).concat(err).concat(c)
}

fn quiet_step() -> (r: Step)
    ensures
        r@ == quiet(),
{
    Step { close_tap: false, open_tap: None, status: None, flush: None, stop: false, failure: None }
}

fn status_step(close_tap: bool, state: SourceState, message: Option<String>) -> (r: Step)
    ensures
        r@ == (StepView {
            close_tap,
            ..report(
                state,
                match message {
                    Some(m) => Some(m@),
                    None => None,
                },
            )
        }),
{
    Step { close_tap, open_tap: None, status: Some(StatusUpdate { state, message }), flush: None, stop: false, failure: None }
}

/// Whether two resolutions say the same.
fn same_resolution(a: &ResolvedApplication, b: &ResolvedApplication) -> (r: bool)
    ensures
        r == (a@ == b@),
{
    if a.running != b.running || a.output_device != b.output_device || a.output_sample_rate
        != b.output_sample_rate || a.processes.len() != b.processes.len() {
        return false;
    }
    let mut i: usize = 0;
    while i < a.processes.len()
        invariant
            a.processes@.len() == b.processes@.len(),
            i <= a.processes@.len(),
            forall|k: int| 0 <= k < i ==> a.processes@[k] == b.processes@[k],
        decreases a.processes.len() - i,
    {
        if a.processes[i].0 != b.processes[i].0 || a.processes[i].1 != b.processes[i].1 {
            return false;
        }
        i += 1;
    }
    assert(a.processes@ =~= b.processes@);
    true
}

impl Supervisor {
    /// Starts supervising `application` with its first resolution `initial`.
    pub fn start(application: &ApplicationIdentity, initial: ResolvedApplication) -> (r: Result<(Supervisor, Step), String>)
        ensures
            match (r, starting(application.name@, initial@)) {
                (Ok((s, step)), Ok((v, w))) => s@ == v && step@ == w && well_formed(s@),
                (Err(m), Err(w)) => m@ == w,
                _ => false,
            },
    {
        let name = application.name.clone();
        if !initial.running {
            return Err(message("Open ", name.as_str(), " before starting the recording."));
        }
        match open(&initial) {
            Some(ids) => {
                let s = Supervisor { name, current: initial, phase: Phase::Starting, pending: Vec::new() };
                let step = Step { open_tap: Some(ids), ..quiet_step() };
                Ok((s, step))
            },
            None => {
                let msg = message("Waiting for ", name.as_str(), " to produce audio");
                let step = status_step(false, SourceState::Waiting, Some(msg));
                let s = Supervisor { name, current: initial, phase: Phase::Idle, pending: Vec::new() };
                Ok((s, step))
            },
        }
    }

    /// Fewer than a batch of samples wait, and only while a tap streams.
    #[verifier::type_invariant]
    spec fn inv(&self) -> bool {
        well_formed(self@)
    }

    /// Takes one event and says what to do.
    pub fn handle(&mut self, event: SupervisorEvent) -> (step: Step)
        ensures
            well_formed(final(self)@),
            final(self)@ == transition(old(self)@, event@).0,
            step@ == transition(old(self)@, event@).1,
    {
        proof {
            use_type_invariant(&*self);
        }
        if self.phase == Phase::Stopped {
            return Step { stop: true, ..quiet_step() };
        }
        match event {
            SupervisorEvent::RecordingStopped | SupervisorEvent::DiscoveryClosed => {
                self.pending = Vec::new();
                self.phase = Phase::Stopped;
                Step { stop: true, ..quiet_step() }
            },
            SupervisorEvent::Resolved(next) => {
                if !same_resolution(&next, &self.current) || self.phase != Phase::Streaming {
                    self.pending = Vec::new();
                    let allow = open(&next);
                    self.current = next;
                    match allow {
                        Some(ids) => {
                            self.phase = Phase::Opening;
                            Step { close_tap: true, open_tap: Some(ids), ..quiet_step() }
                        },
                        None => {
                            self.phase = Phase::Idle;
                            let msg = message("Waiting for ", self.name.as_str(), " — reconnecting automatically");
                            status_step(true, SourceState::Waiting, Some(msg))
                        },
                    }
                } else {
                    quiet_step()
                }
            },
            SupervisorEvent::ResolveFailed(err) => {
                self.pending = Vec::new();
                self.phase = Phase::Idle;
                let msg = message_with_error(
                    "Cannot verify ",
                    self.name.as_str(),
                    " audio: ",
                    err.as_str(),
                    ". Retrying automatically.",
                );
                status_step(true, SourceState::Error, Some(msg))
            },
            SupervisorEvent::TapOpened => {
                match self.phase {
                    Phase::Starting => {
                        self.phase = Phase::Streaming;
                        quiet_step()
                    },
                    Phase::Opening => {
                        self.phase = Phase::Streaming;
                        status_step(false, SourceState::Capturing, None)
                    },
                    _ => quiet_step(),
                }
            },
            SupervisorEvent::TapFailed(err) => {
                match self.phase {
                    Phase::Starting => {
                        self.phase = Phase::Stopped;
                        let msg = message_with_error(
                            "Cannot capture ",
                            self.name.as_str(),
                            ": ",
                            err.as_str(),
                            ". Check system audio recording permission in System Settings.",
                        );
                        Step { stop: true, failure: Some(msg), ..quiet_step() }
                    },
                    Phase::Opening => {
                        self.phase = Phase::Idle;
                        let msg = message_with_error(
                            "Cannot capture ",
                            self.name.as_str(),
                            ": ",
                            err.as_str(),
                            ". Check system audio permission; retrying automatically.",
                        );
                        status_step(false, SourceState::Error, Some(msg))
                    },
                    _ => quiet_step(),
                }
            },
            SupervisorEvent::Sample { sample, active } => {
                if self.phase != Phase::Streaming {
                    quiet_step()
                } else if !active {
                    self.pending = Vec::new();
                    quiet_step()
                } else if self.pending.len() + 1 >= BATCH {
                    let mut batch = Vec::new();
                    std::mem::swap(&mut batch, &mut self.pending);
                    batch.push(sample);
                    Step { flush: Some(batch), ..quiet_step() }
                } else {
                    let mut pending = Vec::new();
                    std::mem::swap(&mut pending, &mut self.pending);
                    pending.push(sample);
                    self.pending = pending;
                    quiet_step()
                }
            },
            SupervisorEvent::StreamEnded => {
                self.pending = Vec::new();
                self.phase = Phase::Idle;
                let msg = message("Waiting for ", self.name.as_str(), " — audio stream ended");
                status_step(true, SourceState::Waiting, Some(msg))
            },
        }
    }
}


/// Every event keeps the supervisor well formed.
pub proof fn law_well_formed_kept(s: SupervisorView, e: EventView)
    requires
        well_formed(s),
    ensures
        well_formed(transition(s, e).0),
{
}

/// A tap is opened only for a non-empty allowlist, and in the running supervisor only
/// after the old tap is torn down.
pub proof fn law_open_after_teardown(s: SupervisorView, e: EventView)
    ensures
        transition(s, e).1.open_tap matches Some(ids) ==> ids.len() > 0 && transition(s, e).1.close_tap,
{
}

/// The first tap of a start is opened only for a non-empty allowlist, and a start
/// fails when the application does not run.
pub proof fn law_start_needs_running_application(name: Seq<char>, initial: ResolvedView)
    ensures
        !initial.running ==> starting(name, initial) is Err,
        starting(name, initial) matches Ok((v, w)) ==> well_formed(v) && (w.open_tap matches Some(ids)
            ==> ids.len() > 0),
{
}

/// Samples are handed on in full batches, in the order they arrived.
pub proof fn law_full_batches(s: SupervisorView, e: EventView)
    requires
        well_formed(s),
    ensures
        transition(s, e).1.flush matches Some(b) ==> (b.len() == BATCH && (e matches EventView::Sample {
            sample,
            active,
        } && active && b == s.pending.push(sample))),
{
}

/// Samples that arrive while the recording is paused are dropped with those waiting.
pub proof fn law_paused_samples_dropped(s: SupervisorView, sample: u32)
    ensures
        transition(s, EventView::Sample { sample, active: false }).1.flush is None,
        transition(s, EventView::Sample { sample, active: false }).0.pending.len() == 0 || s.phase
            != Phase::Streaming,
{
}

/// A stopped supervisor stays stopped and does nothing: a stopped session cannot
/// reattach to an application.
pub proof fn law_stopped_is_final(s: SupervisorView, e: EventView)
    requires
        s.phase == Phase::Stopped,
    ensures
        transition(s, e).0 == s,
        transition(s, e).1 == (StepView { stop: true, ..quiet() }),
{
}

/// A resolution that says what the streaming tap already captures changes nothing.
pub proof fn law_same_resolution_keeps_tap(s: SupervisorView)
    requires
        s.phase == Phase::Streaming,
    ensures
        transition(s, EventView::Resolved(s.current)) == (s, quiet()),
{
}

/// A resolution that differs from the current one, in its processes or in the output
/// device and its format, closes the tap and then opens the new allowlist, or waits
/// when the allowlist is empty.
pub proof fn law_changed_resolution_reopens(s: SupervisorView, next: ResolvedView)
    requires
        s.phase != Phase::Stopped,
        next != s.current,
    ensures
        transition(s, EventView::Resolved(next)).1.close_tap,
        transition(s, EventView::Resolved(next)).1.open_tap == allowlist(next),
        transition(s, EventView::Resolved(next)).0.current == next,
        allowlist(next) is None ==> transition(s, EventView::Resolved(next)).1.status == Some(
            StatusView { state: SourceState::Waiting, message: Some(msg_reconnecting(s.name)) },
        ),
{
}

/// When ownership cannot be verified, the tap is closed and no samples are handed on
/// until a fresh resolution succeeds.
pub proof fn law_unverified_closes_tap(s: SupervisorView, err: Seq<char>, sample: u32, active: bool)
    requires
        s.phase != Phase::Stopped,
    ensures
        transition(s, EventView::ResolveFailed(err)).1.close_tap,
        transition(s, EventView::ResolveFailed(err)).0.phase == Phase::Idle,
        transition(transition(s, EventView::ResolveFailed(err)).0, EventView::Sample { sample, active }).1.flush is None,
{
}


/// The supervisor's state and steps after a sequence of events.
pub open spec fn run(s: SupervisorView, events: Seq<EventView>) -> (SupervisorView, Seq<StepView>)
    decreases events.len(),
{
    if events.len() == 0 {
        (s, seq![])
    } else {
        let (t, steps) = run(s, events.drop_last());
        let (u, step) = transition(t, events.last());
        (u, steps.push(step))
    }
}

/// The resolution last delivered among `events`, or `initial` when none was.
pub open spec fn latest_resolution(initial: ResolvedView, events: Seq<EventView>) -> ResolvedView
    decreases events.len(),
{
    if events.len() == 0 {
        initial
    } else {
        match events.last() {
            EventView::Resolved(r) => r,
            _ => latest_resolution(initial, events.drop_last()),
        }
    }
}

/// The event ends the supervisor.
pub open spec fn is_stop_event(e: EventView) -> bool {
    e matches EventView::RecordingStopped || e matches EventView::DiscoveryClosed
}

/// A step that only stops.
pub open spec fn stop_step() -> StepView {
    StepView { stop: true, ..quiet() }
}

/// Over any sequence of events from a well-formed state: the state stays well formed,
/// one step answers each event, and every batch handed on is a full batch.
pub proof fn law_run_full_batches(s: SupervisorView, events: Seq<EventView>)
    requires
        well_formed(s),
    ensures
        well_formed(run(s, events).0),
        run(s, events).1.len() == events.len(),
        forall|i: int|
            0 <= i < events.len() ==> ((#[trigger] run(s, events).1[i]).flush matches Some(b) ==> b.len()
                == BATCH),
        BATCH == 1024,
    decreases events.len(),
{
    if events.len() > 0 {
        law_run_full_batches(s, events.drop_last());
        let (t, steps) = run(s, events.drop_last());
        law_full_batches(t, events.last());
        let r = run(s, events).1;
        assert forall|i: int| 0 <= i < events.len() implies ((#[trigger] r[i]).flush matches Some(b) ==> b.len()
            == BATCH) by {
            if i < events.len() - 1 {
                assert(r[i] == steps[i]);
            }
        }
    }
}

/// Over any sequence of events, every tap opened is for the allowlist of the
/// resolution delivered by that very event, is never empty, and is opened only
/// after the old tap is closed.
pub proof fn law_run_opens_latest_resolution(s: SupervisorView, events: Seq<EventView>)
    ensures
        run(s, events).1.len() == events.len(),
        forall|i: int|
            0 <= i < events.len() ==> ((#[trigger] run(s, events).1[i]).open_tap matches Some(ids) ==> (
            ids.len() > 0 && run(s, events).1[i].close_tap && (events[i] matches EventView::Resolved(r)
                && allowlist(r) == Some(ids) && latest_resolution(s.current, events.take(i + 1)) == r))),
    decreases events.len(),
{
    if events.len() > 0 {
        law_run_opens_latest_resolution(s, events.drop_last());
        let (t, steps) = run(s, events.drop_last());
        let r = run(s, events).1;
        assert forall|i: int| 0 <= i < events.len() implies ((#[trigger] r[i]).open_tap matches Some(ids) ==> (
            ids.len() > 0 && r[i].close_tap && (events[i] matches EventView::Resolved(v) && allowlist(v)
                == Some(ids) && latest_resolution(s.current, events.take(i + 1)) == v))) by {
            if i < events.len() - 1 {
                assert(r[i] == steps[i]);
                assert(events.drop_last()[i] == events[i]);
                assert(events.drop_last().take(i + 1) =~= events.take(i + 1));
            } else {
                assert(events.take(i + 1) =~= events);
                assert(events.last() == events[i]);
            }
        }
    }
}

/// While the supervisor has not stopped, its current resolution is the one last
/// delivered: reconnection acts on this session's own resolutions only.
pub proof fn law_run_current_is_latest(s: SupervisorView, events: Seq<EventView>)
    requires
        s.phase != Phase::Stopped,
    ensures
        run(s, events).0.phase != Phase::Stopped ==> run(s, events).0.current == latest_resolution(
            s.current,
            events,
        ),
    decreases events.len(),
{
    if events.len() > 0 {
        law_run_current_is_latest(s, events.drop_last());
    }
}

/// Once a stop event is handled, the supervisor stays stopped and every later step
/// only stops: no resolution, tap, status or batch follows for this session.
pub proof fn law_run_stop_is_final(s: SupervisorView, events: Seq<EventView>, i: int)
    requires
        0 <= i < events.len(),
        is_stop_event(events[i]),
    ensures
        run(s, events).0.phase == Phase::Stopped,
        run(s, events).1.len() == events.len(),
        forall|j: int| i < j < events.len() ==> #[trigger] run(s, events).1[j] == stop_step(),
    decreases events.len(),
{
    let (t, steps) = run(s, events.drop_last());
    law_run_opens_latest_resolution(s, events.drop_last());
    if i < events.len() - 1 {
        assert(events.drop_last()[i] == events[i]);
        law_run_stop_is_final(s, events.drop_last(), i);
        let r = run(s, events).1;
        assert forall|j: int| i < j < events.len() implies #[trigger] r[j] == stop_step() by {
            if j < events.len() - 1 {
                assert(r[j] == steps[j]);
            }
        }
    } else {
        assert(events.last() == events[i]);
    }
}


/// The HAL object IDs of a resolution's audio processes, in order.
pub open spec fn hal_ids(r: ResolvedView) -> Seq<u32> {
    r.processes.map_values(|p: (u32, u32)| p.0)
}

/// The supervisor stops only when told to (the recording stopped or discovery went
/// away) or when the first tap of a start cannot be opened; waiting, errors and an
/// ended stream never end it.
pub proof fn law_stops_only_when_told(s: SupervisorView, e: EventView)
    ensures
        transition(s, e).0.phase == Phase::Stopped ==> (s.phase == Phase::Stopped || is_stop_event(e) || (
        e is TapFailed && s.phase == Phase::Starting)),
        transition(s, e).1.stop ==> (s.phase == Phase::Stopped || is_stop_event(e) || (e is TapFailed
            && s.phase == Phase::Starting)),
{
}

/// Waiting is never final: in a supervisor that is neither streaming nor stopped, a
/// resolution of a running application with audio processes closes any old tap and
/// opens one for exactly their HAL object IDs.
pub proof fn law_waiting_reconnects(s: SupervisorView, r: ResolvedView)
    requires
        s.phase != Phase::Streaming,
        s.phase != Phase::Stopped,
        r.running,
        r.processes.len() > 0,
    ensures
        transition(s, EventView::Resolved(r)).1.close_tap,
        transition(s, EventView::Resolved(r)).1.open_tap == Some(hal_ids(r)),
        !transition(s, EventView::Resolved(r)).1.stop,
        transition(s, EventView::Resolved(r)).0.current == r,
        transition(s, EventView::Resolved(r)).0.phase != Phase::Stopped,
{
}

/// When the stream of a running supervisor ends, the recording keeps going: the
/// supervisor closes the tap without stopping, and the next resolution of the running
/// application with audio processes opens a tap for their HAL object IDs again.
pub proof fn law_stream_end_reconnects(s: SupervisorView, r: ResolvedView)
    requires
        s.phase != Phase::Stopped,
        r.running,
        r.processes.len() > 0,
    ensures
        transition(s, EventView::StreamEnded).1.close_tap,
        !transition(s, EventView::StreamEnded).1.stop,
        transition(s, EventView::StreamEnded).0.phase != Phase::Stopped,
        transition(s, EventView::StreamEnded).0.phase != Phase::Streaming,
        transition(transition(s, EventView::StreamEnded).0, EventView::Resolved(r)).1.open_tap == Some(
            hal_ids(r),
        ),
        !transition(transition(s, EventView::StreamEnded).0, EventView::Resolved(r)).1.stop,
{
}

/// A start of a running application succeeds, and the started supervisor is live:
/// whether it opened a first tap or waits for an idle application, a resolution of
/// the running application with audio processes opens a tap for their HAL object IDs.
pub proof fn law_start_then_capture(name: Seq<char>, initial: ResolvedView, r: ResolvedView)
    requires
        r.running,
        r.processes.len() > 0,
    ensures
        initial.running ==> starting(name, initial) is Ok,
        starting(name, initial) matches Ok((v, w)) ==> (v.phase != Phase::Stopped && v.phase
            != Phase::Streaming && !w.stop && w.failure is None && v.current == initial
            && transition(v, EventView::Resolved(r)).1.open_tap == Some(hal_ids(r))),
        starting(name, initial) matches Ok((v, w)) ==> (w.open_tap is Some <==> initial.processes.len()
            > 0),
{
}

} // verus!
