use meetily_audio::discovery::{belongs_to_app, App, Process};
use meetily_audio::source::ApplicationIdentity;
use std::collections::HashMap;

fn app() -> App {
    App {
        pid: 10,
        identity: ApplicationIdentity {
            bundle_id: "test.zoom".into(),
            bundle_path: "/Applications/Zoom.app".into(),
            name: "Zoom".into(),
        },
    }
}

#[test]
fn groups_nested_and_descendant_helpers_but_not_other_apps() {
    let mut processes = HashMap::new();
    processes.insert(
        11,
        Process {
            parent: Some(1),
            executable: Some(
                "/Applications/Zoom.app/Contents/Frameworks/Helper.app/Contents/MacOS/Helper".into(),
            ),
        },
    );
    processes.insert(
        12,
        Process {
            parent: Some(10),
            executable: Some("/usr/libexec/audio-helper".into()),
        },
    );
    processes.insert(
        13,
        Process {
            parent: Some(10),
            executable: Some("/Applications/Music.app/Contents/MacOS/Music".into()),
        },
    );
    assert!(belongs_to_app(11, &app(), &processes));
    assert!(belongs_to_app(12, &app(), &processes));
    assert!(!belongs_to_app(13, &app(), &processes));
    assert!(!belongs_to_app(99, &app(), &processes));
    // Reused PID is evaluated from current ownership, not remembered.
    processes.insert(12, processes[&13].clone());
    assert!(!belongs_to_app(12, &app(), &processes));
}

#[test]
fn path_prefixes_and_process_cycles_do_not_match() {
    let processes = HashMap::from([
        (
            11,
            Process {
                parent: Some(12),
                executable: Some("/Applications/Zoom.app-copy/Contents/MacOS/x".into()),
            },
        ),
        (
            12,
            Process {
                parent: Some(11),
                executable: None,
            },
        ),
    ]);
    assert!(!belongs_to_app(11, &app(), &processes));
}

#[test]
fn main_process_belongs_without_any_table_entry() {
    let processes: HashMap<u32, Process> = HashMap::new();
    assert!(belongs_to_app(10, &app(), &processes));
}

#[test]
fn grandchild_without_executable_follows_its_ancestors() {
    let processes = HashMap::from([
        (20, Process { parent: Some(21), executable: None }),
        (21, Process { parent: Some(10), executable: Some("/usr/bin/helper".into()) }),
    ]);
    assert!(belongs_to_app(20, &app(), &processes));
}

#[test]
fn chain_ending_without_parent_does_not_belong() {
    let processes = HashMap::from([
        (20, Process { parent: Some(21), executable: None }),
        (21, Process { parent: None, executable: None }),
    ]);
    assert!(!belongs_to_app(20, &app(), &processes));
}

#[test]
fn helper_of_other_application_stops_the_walk() {
    let processes = HashMap::from([
        (30, Process { parent: Some(31), executable: None }),
        (
            31,
            Process {
                parent: Some(10),
                executable: Some("/Applications/Music.app/Contents/MacOS/Music".into()),
            },
        ),
    ]);
    assert!(!belongs_to_app(30, &app(), &processes));
}

#[test]
fn path_with_redundant_separators_still_matches() {
    let processes = HashMap::from([(
        40,
        Process {
            parent: None,
            executable: Some("//Applications//Zoom.app/./Contents/MacOS/zoom".into()),
        },
    )]);
    assert!(belongs_to_app(40, &app(), &processes));
}

#[test]
fn self_parented_process_is_a_cycle() {
    let processes = HashMap::from([(50, Process { parent: Some(50), executable: None })]);
    assert!(!belongs_to_app(50, &app(), &processes));
}
