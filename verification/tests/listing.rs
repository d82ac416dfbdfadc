use meetily_audio::discovery::Process;
use meetily_audio::snapshot::{
    ensure_supported, is_supported, list_applications, order_listing, resolve, snapshot, RunningApplication,
    ResolvedApplication, SnapshotError,
};
use meetily_audio::source::AudioApplication;
use meetily_audio::source::ApplicationIdentity;
use std::collections::HashMap;

fn running(pid: u32, bundle_id: &str, bundle_path: &str, name: Option<&str>) -> RunningApplication {
    RunningApplication {
        pid,
        terminated: false,
        bundle_id: Some(bundle_id.into()),
        bundle_path: Some(bundle_path.into()),
        localized_name: name.map(|n| n.into()),
    }
}

#[test]
fn tap_support_needs_macos_14_2_and_the_tap_class() {
    assert!(is_supported(14, 2, true));
    assert!(is_supported(15, 0, true));
    assert!(!is_supported(14, 1, true));
    assert!(!is_supported(13, 9, true));
    assert!(!is_supported(26, 0, false));
}

#[test]
fn snapshot_keeps_only_main_bundles_of_other_running_apps() {
    let mut terminated = running(5, "t.app", "/Applications/T.app", Some("T"));
    terminated.terminated = true;
    let apps = vec![
        running(1, "own", "/Applications/Meetily.app", Some("Meetily")),
        terminated,
        running(6, "helper", "/Applications/Zoom.app/Contents/Helper.app", Some("Helper")),
        running(7, "no.app", "/usr/bin/tool", Some("Tool")),
        running(8, "us.zoom", "/Applications/Zoom.app", None),
        RunningApplication {
            pid: 9,
            terminated: false,
            bundle_id: None,
            bundle_path: Some("/Applications/X.app".into()),
            localized_name: Some("X".into()),
        },
    ];
    let snap = snapshot(&apps, 1, HashMap::new(), vec![]);
    assert_eq!(snap.apps.len(), 1);
    assert_eq!(snap.apps[0].pid, 8);
    assert_eq!(snap.apps[0].identity.name, "us.zoom");
    assert_eq!(snap.apps[0].identity.bundle_path, "/Applications/Zoom.app");
}

#[test]
fn listing_is_sorted_by_lowercase_name_then_path_and_deduplicated() {
    let apps = vec![
        running(10, "b.id", "/Applications/b.app", Some("beta")),
        running(11, "a.id", "/Applications/Alpha.app", Some("Alpha")),
        running(12, "a.id", "/Applications/Alpha.app", Some("alpha")),
        running(13, "c.id", "/Applications/Gamma.app", Some("ALPHA")),
        running(14, "d.id", "/Applications/Delta.app", Some("Zulu")),
    ];
    let processes = HashMap::from([(
        40,
        Process { parent: Some(14), executable: Some("/usr/libexec/audio".into()) },
    )]);
    let snap = snapshot(&apps, 1, processes, vec![(100, 40, true), (101, 10, false)]);
    let list = list_applications(&snap);
    let names: Vec<&str> = list.iter().map(|a| a.identity.name.as_str()).collect();
    assert_eq!(names, vec!["Alpha", "ALPHA", "beta", "Zulu"]);
    let active: Vec<bool> = list.iter().map(|a| a.audio_active).collect();
    assert_eq!(active, vec![false, false, false, true]);
}

#[test]
fn resolve_collects_owned_audio_processes_sorted_and_unique() {
    let apps = vec![
        running(10, "us.zoom", "/Applications/Zoom.app", Some("Zoom")),
        running(20, "music", "/Applications/Music.app", Some("Music")),
    ];
    let processes = HashMap::from([
        (11, Process { parent: Some(10), executable: None }),
        (21, Process { parent: Some(20), executable: None }),
    ]);
    let audio = vec![(7, 11, true), (3, 10, false), (7, 11, false), (5, 21, true), (3, 10, true)];
    let snap = snapshot(&apps, 1, processes, audio);
    let identity = ApplicationIdentity {
        bundle_id: "us.zoom".into(),
        bundle_path: "/Applications/Zoom.app".into(),
        name: "Zoom".into(),
    };
    let resolved = resolve(&identity, &snap, 42, 48000);
    assert_eq!(
        resolved,
        ResolvedApplication { running: true, processes: vec![(3, 10), (7, 11)], output_device: 42, output_sample_rate: 48000 }
    );
}

#[test]
fn missing_application_resolves_to_nothing() {
    let apps = vec![running(10, "us.zoom", "/Applications/Zoom.app", Some("Zoom"))];
    let snap = snapshot(&apps, 1, HashMap::new(), vec![(3, 10, true)]);
    let missing = ApplicationIdentity {
        bundle_id: "invalid.meetily.nonexistent".into(),
        bundle_path: "/Applications/NonexistentMeetilyTest.app".into(),
        name: "Missing".into(),
    };
    let resolved = resolve(&missing, &snap, 1, 44100);
    assert!(!resolved.running);
    assert!(resolved.processes.is_empty());
}

#[test]
fn snapshots_need_tap_support() {
    assert_eq!(ensure_supported(true), Ok(()));
    assert_eq!(ensure_supported(false), Err(SnapshotError::Unsupported));
    assert_eq!(SnapshotError::Unsupported.message(), "Application audio requires macOS 14.2 or later.");
}

fn entry(bundle_id: &str, bundle_path: &str, name: &str) -> AudioApplication {
    AudioApplication {
        identity: ApplicationIdentity { bundle_id: bundle_id.into(), bundle_path: bundle_path.into(), name: name.into() },
        audio_active: false,
    }
}

#[test]
fn ordering_uses_the_given_keys_then_paths() {
    let items = vec![
        ("b".to_string(), entry("z", "/Z.app", "Zeta")),
        ("a".to_string(), entry("y", "/Y2.app", "Yota")),
        ("a".to_string(), entry("x", "/Y1.app", "Xi")),
        ("a".to_string(), entry("x", "/Y1.app", "Xi again")),
        ("".to_string(), entry("w", "/W.app", "W")),
    ];
    let list = order_listing(items);
    let names: Vec<&str> = list.iter().map(|a| a.identity.name.as_str()).collect();
    assert_eq!(names, vec!["W", "Xi", "Yota", "Zeta"]);
}

#[test]
fn idle_applications_are_listed() {
    let apps = vec![running(10, "us.zoom", "/Applications/Zoom.app", Some("Zoom"))];
    let snap = snapshot(&apps, 1, HashMap::new(), vec![]);
    let list = list_applications(&snap);
    assert_eq!(list.len(), 1);
    assert!(!list[0].audio_active);
}
