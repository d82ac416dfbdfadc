use meetily_audio::paths::{
    bundle_component_count, components, has_bundle_component, path_is_absolute, starts_with, Component,
};

fn normal(s: &str) -> Component {
    Component::Normal(s.chars().collect())
}

fn same(a: &[Component], b: &[Component]) -> bool {
    a.len() == b.len()
        && a.iter().zip(b).all(|(x, y)| match (x, y) {
            (Component::RootDir, Component::RootDir) => true,
            (Component::CurDir, Component::CurDir) => true,
            (Component::ParentDir, Component::ParentDir) => true,
            (Component::Normal(p), Component::Normal(q)) => p == q,
            _ => false,
        })
}

#[test]
fn components_follow_unix_rules() {
    assert!(same(
        &components("/a//b/./c/"),
        &[Component::RootDir, normal("a"), normal("b"), normal("c")]
    ));
    assert!(same(&components("./a/../b"), &[Component::CurDir, normal("a"), Component::ParentDir, normal("b")]));
    assert!(same(&components("."), &[Component::CurDir]));
    assert!(same(&components("a/."), &[normal("a")]));
    assert!(same(&components(""), &[]));
    assert!(same(&components("/"), &[Component::RootDir]));
}

#[test]
fn prefixes_are_whole_components() {
    assert!(starts_with("/Applications/Zoom.app/Contents", "/Applications/Zoom.app"));
    assert!(starts_with("/Applications/Zoom.app", "/Applications/Zoom.app/"));
    assert!(!starts_with("/Applications/Zoom.app-copy/Contents", "/Applications/Zoom.app"));
    assert!(!starts_with("Applications/Zoom.app", "/Applications"));
    assert!(starts_with("/anything", ""));
}

#[test]
fn bundle_components_are_counted() {
    assert_eq!(bundle_component_count("/Applications/Zoom.app"), 1);
    assert_eq!(bundle_component_count("/Applications/Zoom.app/Contents/Helper.app"), 2);
    assert_eq!(bundle_component_count("/usr/bin/app"), 0);
    assert!(has_bundle_component("/Applications/Music.app/Contents/MacOS/Music"));
    assert!(!has_bundle_component("/usr/libexec/audio-helper"));
}

#[test]
fn absolute_paths_have_a_root() {
    assert!(path_is_absolute("/Applications/Zoom.app"));
    assert!(!path_is_absolute("Applications/Zoom.app"));
    assert!(!path_is_absolute(""));
}
