# meetily_audio

The verified core of per-application audio capture for a desktop recorder.

- `src/source.rs` — recording intent: the selected source, microphone choice,
  capabilities and validation of a selection.
- `src/paths.rs` — Unix path components, component-wise prefixes and `.app` bundles.
- `src/discovery.rs` — which processes belong to an application: ownership chains
  through parent processes, stopping at other bundles, unknown processes and cycles.
- `src/snapshot.rs` — snapshots of running applications, the sorted application
  list and the resolution of one application to its audio processes.
- `src/supervisor.rs` — the capture supervisor as a state machine from events to
  steps: when taps open and close, which status is reported, how samples batch.
- `src/mixer.rs` — one clock for two sources, bounded queues and silent gaps.

`app/` holds what runs around it: native discovery on macOS, serialized forms of
the types, the async supervisor loop and the float-sample clock.
