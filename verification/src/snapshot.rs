//! A snapshot of running applications, processes and audio processes, and what the
//! application picker and the capture supervisor read from it.
use vstd::prelude::*;
use std::collections::HashMap;
use crate::discovery::{App, Process, belongs_to_app, owned_by};
use crate::order::{
    chars_le, chars_lt, le, lemma_chars_le_antisymmetric, lemma_chars_le_total,
    lemma_chars_le_transitive, lt,
};
use crate::paths::{bundle_component_count, bundle_part_count, is_bundle_part, path_parts, PathPart};
use crate::source::{ApplicationIdentity, AudioApplication};
use crate::text::chars_of;

verus! {

/// Whether Core Audio process taps can be used: macOS 14.2 or later, with the tap
/// description class present in the Objective-C runtime.
pub fn is_supported(os_major: isize, os_minor: isize, tap_description_available: bool) -> (r: bool)
    ensures
        r == ((os_major > 14 || (os_major == 14 && os_minor >= 2)) && tap_description_available),
{
    (os_major > 14 || (os_major == 14 && os_minor >= 2)) && tap_description_available
}

/// What a snapshot request means to the user on a machine without process taps.
pub const SNAPSHOT_UNSUPPORTED: &'static str = "Application audio requires macOS 14.2 or later.";

/// Why no snapshot is taken.
#[derive(Debug, Clone, Copy, PartialEq, Eq, Structural)]
pub enum SnapshotError {
    /// Process taps are not available on this machine.
    Unsupported,
}

impl SnapshotError {
    /// The message shown to the user.
    pub fn message(&self) -> (r: &'static str)
        ensures
            r@ == SNAPSHOT_UNSUPPORTED@,
    {
        SNAPSHOT_UNSUPPORTED
    }
}

/// Whether a snapshot may be taken: only where process taps are supported, checked
/// before anything is read from the system.
pub fn ensure_supported(supported: bool) -> (r: Result<(), SnapshotError>)
    ensures
        r is Ok <==> supported,
        r is Err ==> r == Err::<(), SnapshotError>(SnapshotError::Unsupported),
{
    if supported {
        Ok(())
    } else {
        Err(SnapshotError::Unsupported)
    }
}

/// A running application as the workspace reports it.
pub struct RunningApplication {
    pub pid: u32,
    pub terminated: bool,
    pub bundle_id: Option<String>,
    pub bundle_path: Option<String>,
    pub localized_name: Option<String>,
}

/// The running applications, every process with its parent and executable, and every
/// audio process as (HAL object ID, PID, output activity).
pub struct Snapshot {
    pub apps: Vec<App>,
    pub processes: HashMap<u32, Process>,
    pub audio: Vec<(u32, u32, bool)>,
}

/// The application that a running application stands for in a snapshot: none for
/// this process, a terminated application, one without bundle identifier or bundle
/// path, or a helper nested in another bundle (its path does not hold exactly one
/// `.app` component). The name falls back to the bundle identifier.
pub open spec fn candidate_app(r: RunningApplication, own_pid: u32) -> Option<App> {
    if r.pid == own_pid || r.terminated {
        None
    } else {
        match (r.bundle_id, r.bundle_path) {
            (Some(id), Some(path)) => if bundle_part_count(path_parts(path@)) != 1 {
                None
            } else {
                Some(
                    App {
                        pid: r.pid,
                        identity: ApplicationIdentity {
                            bundle_id: id,
                            bundle_path: path,
                            name: match r.localized_name {
                                Some(n) => n,
                                None => id,
                            },
                        },
                    },
                )
            },
            _ => None,
        }
    }
}

/// The applications that running applications stand for, in order.
pub open spec fn candidate_apps(rs: Seq<RunningApplication>, own_pid: u32) -> Seq<App>
    decreases rs.len(),
{
    if rs.len() == 0 {
        seq![]
    } else {
        candidate_apps(rs.drop_last(), own_pid) + match candidate_app(rs.last(), own_pid) {
            Some(a) => seq![a],
            None => Seq::<App>::empty(),
        }
    }
}

impl Clone for App {
    fn clone(&self) -> (r: Self)
        ensures
            r == *self,
    {
        App { identity: self.identity.clone(), pid: self.pid }
    }
}

impl Clone for AudioApplication {
    fn clone(&self) -> (r: Self)
        ensures
            r == *self,
    {
        AudioApplication { identity: self.identity.clone(), audio_active: self.audio_active }
    }
}

fn candidate(r: &RunningApplication, own_pid: u32) -> (c: Option<App>)
    ensures
        c == candidate_app(*r, own_pid),
{
    if r.pid == own_pid || r.terminated {
        return None;
    }
    match (&r.bundle_id, &r.bundle_path) {
        (Some(id), Some(path)) => {
            if bundle_component_count(path.as_str()) != 1 {
                return None;
            }
            let name = match &r.localized_name {
                Some(n) => n.clone(),
                None => id.clone(),
            };
            Some(
                App {
                    pid: r.pid,
                    identity: ApplicationIdentity {
                        bundle_id: id.clone(),
                        bundle_path: path.clone(),
                        name,
                    },
                },
            )
        },
        _ => None,
    }
}

/// A snapshot of the running applications other than this process (`own_pid`),
/// with the process table and audio processes as given.
pub fn snapshot(
    running: &Vec<RunningApplication>,
    own_pid: u32,
    processes: HashMap<u32, Process>,
    audio: Vec<(u32, u32, bool)>,
) -> (r: Snapshot)
    ensures
        r.apps@ == candidate_apps(running@, own_pid),
        r.processes@ == processes@,
        r.audio@ == audio@,
{
    let mut apps: Vec<App> = Vec::new();
    let mut i: usize = 0;
    assert(running@.take(0) =~= Seq::<RunningApplication>::empty());
    while i < running.len()
        invariant
            i <= running.len(),
            apps@ == candidate_apps(running@.take(i as int), own_pid),
        decreases running.len() - i,
    {
        assert(running@.take(i + 1).drop_last() =~= running@.take(i as int));
        let ghost before = apps@;
        match candidate(&running[i], own_pid) {
            Some(a) => {
                apps.push(a);
            },
            None => {},
        }
        assert(apps@ =~= candidate_apps(running@.take(i + 1), own_pid));
        i += 1;
    }
    assert(running@.take(running.len() as int) =~= running@);
    Snapshot { apps, processes, audio }
}


/// The lowercase form of `s` that `str::to_lowercase` computes.
pub uninterp spec fn lowercase(s: Seq<char>) -> Seq<char>;

/// Calls `str::to_lowercase`, which returns the Unicode lowercase form of `s` (a
/// final capital sigma is mapped by its context within `s`); the result depends on
/// `s` alone and is named `lowercase`.
#[verifier::external_body]
fn to_lowercase(s: &str) -> (r: String)
    ensures
        r@ == lowercase(s@),
{
    s.to_lowercase()
}

/// An entry of the application list with its first sort key.
pub struct Keyed {
    pub key: Seq<char>,
    pub entry: AudioApplication,
}

/// `x` may be listed before `y`: its key comes first, or the keys are equal and its
/// bundle path comes no later.
pub open spec fn listed_no_later(x: Keyed, y: Keyed) -> bool {
    chars_lt(x.key, y.key) || (x.key == y.key && chars_le(
        x.entry.identity.bundle_path@,
        y.entry.identity.bundle_path@,
    ))
}

/// Inserts `x` into the sorted list `sorted` after every entry that may be listed
/// before it.
pub open spec fn insert_listed(sorted: Seq<Keyed>, x: Keyed) -> Seq<Keyed>
    decreases sorted.len(),
{
    if sorted.len() == 0 {
        seq![x]
    } else if listed_no_later(sorted.last(), x) {
        sorted.push(x)
    } else {
        insert_listed(sorted.drop_last(), x).push(sorted.last())
    }
}

/// The stable sort of `s` by (key, bundle path): entries with equal keys keep their
/// order.
pub open spec fn sort_listed(s: Seq<Keyed>) -> Seq<Keyed>
    decreases s.len(),
{
    if s.len() == 0 {
        s
    } else {
        insert_listed(sort_listed(s.drop_last()), s.last())
    }
}

/// Two entries stand for the same bundle: equal identifier and equal path.
pub open spec fn same_bundle(a: AudioApplication, b: AudioApplication) -> bool {
    a.identity.bundle_id@ == b.identity.bundle_id@ && a.identity.bundle_path@ == b.identity.bundle_path@
}

/// `s` without every entry that stands for the same bundle as the entry before it.
pub open spec fn dedup_bundles(s: Seq<Keyed>) -> Seq<Keyed>
    decreases s.len(),
{
    if s.len() <= 1 {
        s
    } else {
        dedup_bundles(s.drop_last()) + if same_bundle(s.last().entry, s[s.len() - 2].entry) {
            Seq::<Keyed>::empty()
        } else {
            seq![s.last()]
        }
    }
}

/// The entries of a keyed list.
pub open spec fn strip(s: Seq<Keyed>) -> Seq<AudioApplication> {
    s.map_values(|k: Keyed| k.entry)
}

/// The application list for entries with their keys: sorted by key then bundle
/// path, with an entry dropped when it stands for the same bundle as the one before.
pub open spec fn ordered_listing(keyed: Seq<Keyed>) -> Seq<AudioApplication> {
    strip(dedup_bundles(sort_listed(keyed)))
}

/// Entries paired with their keys, as mathematical values.
pub open spec fn keyed_view(items: Seq<(String, AudioApplication)>) -> Seq<Keyed> {
    items.map_values(|p: (String, AudioApplication)| Keyed { key: p.0@, entry: p.1 })
}

/// Some audio process that is producing output belongs to `app`.
pub open spec fn audio_active(app: App, snap: Snapshot) -> bool {
    exists|i: int|
        0 <= i < snap.audio@.len() && (#[trigger] snap.audio@[i]).2 && owned_by(
            snap.audio@[i].1,
            app,
            snap.processes@,
        )
}

/// The picker's entry for an application of a snapshot.
pub open spec fn listing_entry(app: App, snap: Snapshot) -> AudioApplication {
    AudioApplication { identity: app.identity, audio_active: audio_active(app, snap) }
}

/// The picker's entry for an application with its key, the lowercased name.
pub open spec fn keyed_entry(app: App, snap: Snapshot) -> Keyed {
    Keyed { key: lowercase(app.identity.name@), entry: listing_entry(app, snap) }
}

/// The picker's list for a snapshot: one entry per application, sorted by
/// lowercased name then bundle path, with adjacent duplicates of a bundle removed.
pub open spec fn listing(snap: Snapshot) -> Seq<AudioApplication> {
    ordered_listing(snap.apps@.map_values(|a: App| keyed_entry(a, snap)))
}

/// An entry with its sort keys as characters.
struct Listed {
    name_key: Vec<char>,
    path_key: Vec<char>,
    entry: AudioApplication,
}

spec fn keyed_of(l: Listed) -> Keyed {
    Keyed { key: l.name_key@, entry: l.entry }
}

spec fn keys_match(l: Listed) -> bool {
    l.path_key@ == l.entry.identity.bundle_path@
}

spec fn entries(v: Seq<Listed>) -> Seq<Keyed> {
    v.map_values(|l: Listed| keyed_of(l))
}

fn may_list_before(x: &Listed, y: &Listed) -> (r: bool)
    requires
        keys_match(*x),
        keys_match(*y),
    ensures
        r == listed_no_later(keyed_of(*x), keyed_of(*y)),
{
    lt(&x.name_key, &y.name_key) || (crate::text::chars_eq(&x.name_key, &y.name_key) && le(
        &x.path_key,
        &y.path_key,
    ))
}

proof fn lemma_insert_listed_prefix(t: Seq<Keyed>, j: int, x: Keyed)
    requires
        0 < j <= t.len(),
        !listed_no_later(t[j - 1], x),
    ensures
        insert_listed(t.take(j), x) + t.skip(j) == insert_listed(t.take(j - 1), x) + t.skip(j - 1),
{
    assert(t.take(j).drop_last() =~= t.take(j - 1));
    assert(t.take(j).last() == t[j - 1]);
    assert(insert_listed(t.take(j - 1), x).push(t[j - 1]) + t.skip(j) =~= insert_listed(t.take(j - 1), x)
        + t.skip(j - 1));
}

fn insert_sorted(sorted: &mut Vec<Listed>, x: Listed)
    requires
        forall|i: int| 0 <= i < old(sorted)@.len() ==> keys_match(#[trigger] old(sorted)@[i]),
        keys_match(x),
    ensures
        forall|i: int| 0 <= i < final(sorted)@.len() ==> keys_match(#[trigger] final(sorted)@[i]),
        entries(final(sorted)@) == insert_listed(entries(old(sorted)@), keyed_of(x)),
{
    let ghost t = entries(sorted@);
    let ghost xk = keyed_of(x);
    let mut j = sorted.len();
    assert(t.take(j as int) =~= t);
    assert(t.skip(j as int) =~= Seq::<Keyed>::empty());
    while j > 0 && !may_list_before(&sorted[j - 1], &x)
        invariant
            j <= sorted.len(),
            t == entries(sorted@),
            xk == keyed_of(x),
            forall|i: int| 0 <= i < sorted@.len() ==> keys_match(#[trigger] sorted@[i]),
            keys_match(x),
            insert_listed(t, xk) == insert_listed(t.take(j as int), xk) + t.skip(j as int),
        decreases j,
    {
        proof {
            assert(t[j - 1] == keyed_of(sorted@[j - 1]));
            lemma_insert_listed_prefix(t, j as int, xk);
        }
        j -= 1;
    }
    proof {
        if j > 0 {
            assert(t[j - 1] == keyed_of(sorted@[j - 1]));
            assert(t.take(j as int).last() == t[j - 1]);
        }
        assert(insert_listed(t.take(j as int), xk) =~= t.take(j as int).push(xk));
    }
    sorted.insert(j, x);
    assert(entries(sorted@) =~= t.take(j as int).push(xk) + t.skip(j as int));
}

fn same_bundle_as(a: &AudioApplication, b: &AudioApplication) -> (r: bool)
    ensures
        r == same_bundle(*a, *b),
{
    a.identity.bundle_id == b.identity.bundle_id && a.identity.bundle_path == b.identity.bundle_path
}

fn audio_active_of(app: &App, snapshot: &Snapshot) -> (r: bool)
    ensures
        r == audio_active(*app, *snapshot),
{
    let mut i: usize = 0;
    while i < snapshot.audio.len()
        invariant
            i <= snapshot.audio@.len(),
            forall|j: int|
                0 <= j < i ==> !((#[trigger] snapshot.audio@[j]).2 && owned_by(
                    snapshot.audio@[j].1,
                    *app,
                    snapshot.processes@,
                )),
        decreases snapshot.audio.len() - i,
    {
        let (_, pid, active) = snapshot.audio[i];
        if active && belongs_to_app(pid, app, &snapshot.processes) {
            assert(snapshot.audio@[i as int].2);
            return true;
        }
        i += 1;
    }
    false
}

/// The application list for entries paired with their first sort key (for the
/// picker, the lowercased name): a stable sort by key then bundle path, keeping one
/// entry of each run of entries that stand for the same bundle.
pub fn order_listing(items: Vec<(String, AudioApplication)>) -> (r: Vec<AudioApplication>)
    ensures
        r@ == ordered_listing(keyed_view(items@)),
{
    let ghost keyed = keyed_view(items@);
    let mut sorted_items: Vec<Listed> = Vec::new();
    let mut i: usize = 0;
    assert(keyed.take(0) =~= Seq::<Keyed>::empty());
    assert(entries(sorted_items@) =~= Seq::<Keyed>::empty());
    while i < items.len()
        invariant
            i <= items@.len(),
            keyed == keyed_view(items@),
            forall|k: int| 0 <= k < sorted_items@.len() ==> keys_match(#[trigger] sorted_items@[k]),
            entries(sorted_items@) == sort_listed(keyed.take(i as int)),
        decreases items.len() - i,
    {
        let entry = items[i].1.clone();
        let name_key = chars_of(items[i].0.as_str());
        let path_key = chars_of(entry.identity.bundle_path.as_str());
        let item = Listed { name_key, path_key, entry };
        proof {
            assert(keyed.take(i + 1).drop_last() =~= keyed.take(i as int));
            assert(keyed.take(i + 1).last() == keyed[i as int]);
            assert(keyed_of(item) == keyed[i as int]);
        }
        insert_sorted(&mut sorted_items, item);
        i += 1;
    }
    assert(keyed.take(items.len() as int) =~= keyed);
    let ghost sorted = entries(sorted_items@);
    let mut out: Vec<AudioApplication> = Vec::new();
    let mut k: usize = 0;
    assert(strip(dedup_bundles(sorted.take(0))) =~= Seq::<AudioApplication>::empty());
    while k < sorted_items.len()
        invariant
            k <= sorted_items@.len(),
            sorted == entries(sorted_items@),
            out@ == strip(dedup_bundles(sorted.take(k as int))),
        decreases sorted_items.len() - k,
    {
        let ghost before = dedup_bundles(sorted.take(k as int));
        assert(sorted.take(k + 1).drop_last() =~= sorted.take(k as int));
        assert(sorted[k as int] == keyed_of(sorted_items@[k as int]));
        if k == 0 {
            out.push(sorted_items[k].entry.clone());
            assert(dedup_bundles(sorted.take(1)) =~= sorted.take(1));
            assert(out@ =~= strip(sorted.take(1)));
        } else {
            assert(sorted[k - 1] == keyed_of(sorted_items@[k - 1]));
            assert(sorted.take(k + 1)[k - 1] == sorted[k - 1]);
            if !same_bundle_as(&sorted_items[k].entry, &sorted_items[k - 1].entry) {
                out.push(sorted_items[k].entry.clone());
                assert(dedup_bundles(sorted.take(k + 1)) =~= before + seq![sorted[k as int]]);
                assert(out@ =~= strip(before + seq![sorted[k as int]]));
            } else {
                assert(dedup_bundles(sorted.take(k + 1)) =~= before + Seq::<Keyed>::empty());
            }
        }
        k += 1;
    }
    assert(sorted.take(sorted_items.len() as int) =~= sorted);
    out
}

/// The picker's list of applications for a snapshot.
pub fn list_applications(snapshot: &Snapshot) -> (r: Vec<AudioApplication>)
    ensures
        r@ == listing(*snapshot),
{
    let ghost mapped = snapshot.apps@.map_values(|a: App| keyed_entry(a, *snapshot));
    let mut items: Vec<(String, AudioApplication)> = Vec::new();
    let mut i: usize = 0;
    assert(keyed_view(items@) =~= mapped.take(0));
    while i < snapshot.apps.len()
        invariant
            i <= snapshot.apps@.len(),
            mapped == snapshot.apps@.map_values(|a: App| keyed_entry(a, *snapshot)),
            keyed_view(items@) == mapped.take(i as int),
        decreases snapshot.apps.len() - i,
    {
        let app = &snapshot.apps[i];
        let active = audio_active_of(app, snapshot);
        let identity = app.identity.clone();
        let lower = to_lowercase(identity.name.as_str());
        let ghost before = items@;
        let entry = AudioApplication { identity, audio_active: active };
        let ghost k = Keyed { key: lower@, entry };
        assert(k == mapped[i as int]);
        items.push((lower, entry));
        assert(keyed_view(items@) =~= keyed_view(before).push(k));
        assert(mapped.take(i + 1) =~= mapped.take(i as int).push(mapped[i as int]));
        i += 1;
    }
    assert(mapped.take(snapshot.apps.len() as int) =~= mapped);
    order_listing(items)
}

/// What a snapshot says of one application: whether it runs, the audio processes
/// that belong to it as (HAL object ID, PID), and the default output device with its
/// nominal sample rate. PIDs are part of each pair because HAL IDs can be reused.
#[derive(Debug, PartialEq, Eq)]
pub struct ResolvedApplication {
    pub running: bool,
    pub processes: Vec<(u32, u32)>,
    pub output_device: u32,
    pub output_sample_rate: u32,
}

/// The application `app` has the bundle of `identity`: same identifier and path.
pub open spec fn has_identity(app: App, identity: ApplicationIdentity) -> bool {
    app.identity.bundle_id@ == identity.bundle_id@ && app.identity.bundle_path@ == identity.bundle_path@
}

/// Some running application of the snapshot has the bundle of `identity`.
pub open spec fn identity_running(identity: ApplicationIdentity, snap: Snapshot) -> bool {
    exists|j: int| 0 <= j < snap.apps@.len() && has_identity(#[trigger] snap.apps@[j], identity)
}

/// The audio process `pair` of the snapshot belongs to some running application with
/// the bundle of `identity`.
pub open spec fn captured(pair: (u32, u32), identity: ApplicationIdentity, snap: Snapshot) -> bool {
    exists|i: int, j: int|
        0 <= i < snap.audio@.len() && 0 <= j < snap.apps@.len() && (#[trigger] snap.audio@[i]).0
            == pair.0 && snap.audio@[i].1 == pair.1 && has_identity(#[trigger] snap.apps@[j], identity)
            && owned_by(pair.1, snap.apps@[j], snap.processes@)
}

/// `a` comes before `b` in the order of (HAL object ID, PID).
pub open spec fn pair_lt(a: (u32, u32), b: (u32, u32)) -> bool {
    a.0 < b.0 || (a.0 == b.0 && a.1 < b.1)
}

/// `s` is strictly increasing: sorted, each pair once.
pub open spec fn strictly_increasing(s: Seq<(u32, u32)>) -> bool {
    forall|i: int, j: int| 0 <= i < j < s.len() ==> pair_lt(#[trigger] s[i], #[trigger] s[j])
}

fn insert_unique(v: &mut Vec<(u32, u32)>, x: (u32, u32))
    requires
        strictly_increasing(old(v)@),
    ensures
        strictly_increasing(final(v)@),
        forall|p: (u32, u32)| #[trigger] final(v)@.contains(p) <==> (old(v)@.contains(p) || p == x),
{
    let mut j: usize = 0;
    while j < v.len() && (v[j].0 < x.0 || (v[j].0 == x.0 && v[j].1 < x.1))
        invariant
            j <= v.len(),
            strictly_increasing(v@),
            forall|k: int| 0 <= k < j ==> pair_lt(#[trigger] v@[k], x),
        decreases v.len() - j,
    {
        j += 1;
    }
    if j < v.len() && v[j].0 == x.0 && v[j].1 == x.1 {
        assert(v@[j as int] == x);
        assert forall|p: (u32, u32)| #[trigger] v@.contains(p) <==> (v@.contains(p) || p == x) by {
            if p == x {
                assert(v@[j as int] == p);
            }
        }
        return;
    }
    let ghost old_v = v@;
    v.insert(j, x);
    assert(v@ == old_v.insert(j as int, x));
    assert forall|a: int, b: int| 0 <= a < b < v@.len() implies pair_lt(#[trigger] v@[a], #[trigger] v@[b]) by {
        if a < j && b < j {
            assert(pair_lt(old_v[a], old_v[b]));
        } else if a < j && b == j {
        } else if a < j {
            assert(pair_lt(old_v[a], x));
            if j < old_v.len() {
                assert(pair_lt(x, old_v[j as int]) || x == old_v[j as int]);
                if b - 1 > j {
                    assert(pair_lt(old_v[j as int], old_v[b - 1]));
                }
            }
        } else if a == j {
            assert(pair_lt(x, old_v[j as int]) || x == old_v[j as int]);
            if b - 1 > j {
                assert(pair_lt(old_v[j as int], old_v[b - 1]));
            }
        } else {
            assert(pair_lt(old_v[a - 1], old_v[b - 1]));
        }
    }
    assert forall|p: (u32, u32)| #[trigger] v@.contains(p) <==> (old_v.contains(p) || p == x) by {
        if v@.contains(p) {
            let k = choose|k: int| 0 <= k < v@.len() && v@[k] == p;
            if k < j {
                assert(old_v[k] == p);
            } else if k > j {
                assert(old_v[k - 1] == p);
            }
        }
        if old_v.contains(p) {
            let k = choose|k: int| 0 <= k < old_v.len() && old_v[k] == p;
            if k < j {
                assert(v@[k] == p);
            } else {
                assert(v@[k + 1] == p);
            }
        }
        if p == x {
            assert(v@[j as int] == p);
        }
    }
}

fn has_identity_of(app: &App, identity: &ApplicationIdentity) -> (r: bool)
    ensures
        r == has_identity(*app, *identity),
{
    app.identity.bundle_id == identity.bundle_id && app.identity.bundle_path == identity.bundle_path
}

/// What the snapshot says of the application with the bundle of `identity`, with the
/// default output device and its nominal sample rate as given.
pub fn resolve(
    identity: &ApplicationIdentity,
    snapshot: &Snapshot,
    output_device: u32,
    output_sample_rate: u32,
) -> (r: ResolvedApplication)
    ensures
        r.running == identity_running(*identity, *snapshot),
        strictly_increasing(r.processes@),
        forall|p: (u32, u32)| #[trigger] r.processes@.contains(p) <==> captured(p, *identity, *snapshot),
        r.output_device == output_device,
        r.output_sample_rate == output_sample_rate,
{
    let mut matching: Vec<usize> = Vec::new();
    let mut j: usize = 0;
    while j < snapshot.apps.len()
        invariant
            j <= snapshot.apps@.len(),
            forall|k: int| 0 <= k < matching@.len() ==> #[trigger] matching@[k] < snapshot.apps@.len()
                && has_identity(snapshot.apps@[matching@[k] as int], *identity),
            forall|a: int| 0 <= a < j && has_identity(#[trigger] snapshot.apps@[a], *identity) ==> exists|k: int|
                0 <= k < matching@.len() && matching@[k] == a,
        decreases snapshot.apps.len() - j,
    {
        if has_identity_of(&snapshot.apps[j], identity) {
            let ghost before = matching@;
            matching.push(j);
            assert forall|a: int| 0 <= a < j + 1 && has_identity(#[trigger] snapshot.apps@[a], *identity) implies exists|k: int|
                0 <= k < matching@.len() && matching@[k] == a by {
                if a == j {
                    assert(matching@[before.len() as int] == a);
                } else {
                    let k = choose|k: int| 0 <= k < before.len() && before[k] == a;
                    assert(matching@[k] == a);
                }
            }
        }
        j += 1;
    }
    let running = matching.len() > 0;
    proof {
        if running {
            assert(has_identity(snapshot.apps@[matching@[0] as int], *identity));
        }
        if identity_running(*identity, *snapshot) {
            let a = choose|a: int| 0 <= a < snapshot.apps@.len() && has_identity(#[trigger] snapshot.apps@[a], *identity);
            let k = choose|k: int| 0 <= k < matching@.len() && matching@[k] == a;
        }
    }
    let mut processes: Vec<(u32, u32)> = Vec::new();
    let mut i: usize = 0;
    while i < snapshot.audio.len()
        invariant
            i <= snapshot.audio@.len(),
            strictly_increasing(processes@),
            forall|k: int| 0 <= k < matching@.len() ==> #[trigger] matching@[k] < snapshot.apps@.len()
                && has_identity(snapshot.apps@[matching@[k] as int], *identity),
            forall|a: int| 0 <= a < snapshot.apps@.len() && has_identity(#[trigger] snapshot.apps@[a], *identity) ==> exists|k: int|
                0 <= k < matching@.len() && matching@[k] == a,
            forall|p: (u32, u32)| #[trigger] processes@.contains(p) <==> exists|a: int, b: int|
                0 <= a < i && 0 <= b < snapshot.apps@.len() && (#[trigger] snapshot.audio@[a]).0 == p.0
                    && snapshot.audio@[a].1 == p.1 && has_identity(#[trigger] snapshot.apps@[b], *identity)
                    && owned_by(p.1, snapshot.apps@[b], snapshot.processes@),
        decreases snapshot.audio.len() - i,
    {
        let (id, pid, _) = snapshot.audio[i];
        let mut owned = false;
        let mut k: usize = 0;
        while k < matching.len()
            invariant
                k <= matching@.len(),
                forall|m: int| 0 <= m < matching@.len() ==> #[trigger] matching@[m] < snapshot.apps@.len(),
                owned ==> exists|b: int| 0 <= b < snapshot.apps@.len() && has_identity(#[trigger] snapshot.apps@[b], *identity)
                    && owned_by(pid, snapshot.apps@[b], snapshot.processes@),
                forall|m: int| 0 <= m < matching@.len() ==> #[trigger] has_identity(snapshot.apps@[matching@[m] as int], *identity),
                !owned ==> forall|m: int| 0 <= m < k ==> !owned_by(pid, snapshot.apps@[#[trigger] matching@[m] as int], snapshot.processes@),
            decreases matching.len() - k,
        {
            if !owned && belongs_to_app(pid, &snapshot.apps[matching[k]], &snapshot.processes) {
                owned = true;
                assert(has_identity(snapshot.apps@[matching@[k as int] as int], *identity));
            }
            k += 1;
        }
        let ghost before = processes@;
        if owned {
            insert_unique(&mut processes, (id, pid));
        }
        assert forall|p: (u32, u32)| #[trigger] processes@.contains(p) <==> exists|a: int, b: int|
            0 <= a < i + 1 && 0 <= b < snapshot.apps@.len() && (#[trigger] snapshot.audio@[a]).0 == p.0
                && snapshot.audio@[a].1 == p.1 && has_identity(#[trigger] snapshot.apps@[b], *identity)
                && owned_by(p.1, snapshot.apps@[b], snapshot.processes@) by {
            if p.0 == id && p.1 == pid && !owned {
                if exists|b: int| 0 <= b < snapshot.apps@.len() && has_identity(#[trigger] snapshot.apps@[b], *identity)
                    && owned_by(pid, snapshot.apps@[b], snapshot.processes@) {
                    let b = choose|b: int| 0 <= b < snapshot.apps@.len() && has_identity(#[trigger] snapshot.apps@[b], *identity)
                        && owned_by(pid, snapshot.apps@[b], snapshot.processes@);
                    let m = choose|m: int| 0 <= m < matching@.len() && matching@[m] == b;
                    assert(!owned_by(pid, snapshot.apps@[matching@[m] as int], snapshot.processes@));
                }
            }
            if owned && p.0 == id && p.1 == pid {
                let b = choose|b: int| 0 <= b < snapshot.apps@.len() && has_identity(#[trigger] snapshot.apps@[b], *identity)
                    && owned_by(pid, snapshot.apps@[b], snapshot.processes@);
                assert(snapshot.audio@[i as int].0 == p.0);
            }
        }
        i += 1;
    }
    ResolvedApplication { running, processes, output_device, output_sample_rate }
}


/// Every entry of `s` may be listed before every later entry.
pub open spec fn sorted_listing(s: Seq<Keyed>) -> bool {
    forall|i: int, j: int| 0 <= i < j < s.len() ==> listed_no_later(#[trigger] s[i], #[trigger] s[j])
}

proof fn lemma_listed_total(x: Keyed, y: Keyed)
    ensures
        listed_no_later(x, y) || listed_no_later(y, x),
{
    lemma_chars_le_total(x.key, y.key);
    lemma_chars_le_total(x.entry.identity.bundle_path@, y.entry.identity.bundle_path@);
}

proof fn lemma_listed_transitive(x: Keyed, y: Keyed, z: Keyed)
    requires
        listed_no_later(x, y),
        listed_no_later(y, z),
    ensures
        listed_no_later(x, z),
{
    let (a, b, c) = (x.key, y.key, z.key);
    if a == b && b == c {
        lemma_chars_le_transitive(
            x.entry.identity.bundle_path@,
            y.entry.identity.bundle_path@,
            z.entry.identity.bundle_path@,
        );
    } else {
        if a == b {
            assert(chars_lt(b, c));
        } else if b == c {
            assert(chars_lt(a, b));
        } else {
            lemma_chars_le_transitive(a, b, c);
            if a == c {
                lemma_chars_le_antisymmetric(a, b);
            }
        }
    }
}

proof fn lemma_insert_listed_elements(t: Seq<Keyed>, x: Keyed, y: Keyed)
    requires
        insert_listed(t, x).contains(y),
    ensures
        y == x || t.contains(y),
    decreases t.len(),
{
    if t.len() > 0 && !listed_no_later(t.last(), x) {
        let r = insert_listed(t.drop_last(), x);
        let k = choose|k: int| 0 <= k < r.push(t.last()).len() && r.push(t.last())[k] == y;
        if k < r.len() {
            assert(r[k] == y);
            lemma_insert_listed_elements(t.drop_last(), x, y);
            if t.drop_last().contains(y) {
                let m = choose|m: int| 0 <= m < t.drop_last().len() && t.drop_last()[m] == y;
                assert(t[m] == y);
            }
        } else {
            assert(t[t.len() - 1] == y);
        }
    } else if t.len() > 0 {
        let k = choose|k: int| 0 <= k < t.push(x).len() && t.push(x)[k] == y;
        if k < t.len() {
            assert(t[k] == y);
        }
    }
}

proof fn lemma_insert_listed_contains(t: Seq<Keyed>, x: Keyed, y: Keyed)
    requires
        y == x || t.contains(y),
    ensures
        insert_listed(t, x).contains(y),
    decreases t.len(),
{
    if t.len() == 0 {
        assert(insert_listed(t, x)[0] == x);
    } else if listed_no_later(t.last(), x) {
        if y == x {
            assert(t.push(x)[t.len() as int] == y);
        } else {
            let m = choose|m: int| 0 <= m < t.len() && t[m] == y;
            assert(t.push(x)[m] == y);
        }
    } else {
        let r = insert_listed(t.drop_last(), x);
        if y == t.last() {
            assert(r.push(t.last())[r.len() as int] == y);
        } else {
            if y != x {
                let m = choose|m: int| 0 <= m < t.len() && t[m] == y;
                assert(m < t.len() - 1);
                assert(t.drop_last()[m] == y);
            }
            lemma_insert_listed_contains(t.drop_last(), x, y);
            let k = choose|k: int| 0 <= k < r.len() && r[k] == y;
            assert(r.push(t.last())[k] == y);
        }
    }
}

proof fn lemma_sort_listed_elements(s: Seq<Keyed>, y: Keyed)
    ensures
        sort_listed(s).contains(y) <==> s.contains(y),
    decreases s.len(),
{
    if s.len() > 0 {
        let s0 = s.drop_last();
        lemma_sort_listed_elements(s0, y);
        if sort_listed(s).contains(y) {
            lemma_insert_listed_elements(sort_listed(s0), s.last(), y);
            if y == s.last() {
                assert(s[s.len() - 1] == y);
            } else {
                let m = choose|m: int| 0 <= m < s0.len() && s0[m] == y;
                assert(s[m] == y);
            }
        }
        if s.contains(y) {
            let m = choose|m: int| 0 <= m < s.len() && s[m] == y;
            if m < s.len() - 1 {
                assert(s0[m] == y);
            }
            lemma_insert_listed_contains(sort_listed(s0), s.last(), y);
        }
    }
}

proof fn lemma_insert_listed_sorted(t: Seq<Keyed>, x: Keyed)
    requires
        sorted_listing(t),
    ensures
        sorted_listing(insert_listed(t, x)),
        insert_listed(t, x).len() == t.len() + 1,
    decreases t.len(),
{
    if t.len() == 0 {
    } else if listed_no_later(t.last(), x) {
        let r = t.push(x);
        assert forall|i: int, j: int| 0 <= i < j < r.len() implies listed_no_later(#[trigger] r[i], #[trigger] r[j]) by {
            if j == t.len() && i < t.len() - 1 {
                assert(listed_no_later(t[i], t[t.len() - 1]));
                lemma_listed_transitive(t[i], t.last(), x);
            }
        }
    } else {
        let t0 = t.drop_last();
        assert(sorted_listing(t0)) by {
            assert forall|i: int, j: int| 0 <= i < j < t0.len() implies listed_no_later(#[trigger] t0[i], #[trigger] t0[j]) by {
                assert(listed_no_later(t[i], t[j]));
            }
        }
        lemma_insert_listed_sorted(t0, x);
        let r0 = insert_listed(t0, x);
        let r = r0.push(t.last());
        lemma_listed_total(t.last(), x);
        assert forall|i: int, j: int| 0 <= i < j < r.len() implies listed_no_later(#[trigger] r[i], #[trigger] r[j]) by {
            if j == r0.len() {
                assert(r0.contains(r0[i]));
                lemma_insert_listed_elements(t0, x, r0[i]);
                if r0[i] != x {
                    let m = choose|m: int| 0 <= m < t0.len() && t0[m] == r0[i];
                    assert(listed_no_later(t[m], t[t.len() - 1]));
                }
            }
        }
    }
}

proof fn lemma_sort_listed_sorted(s: Seq<Keyed>)
    ensures
        sorted_listing(sort_listed(s)),
        sort_listed(s).len() == s.len(),
    decreases s.len(),
{
    if s.len() > 0 {
        lemma_sort_listed_sorted(s.drop_last());
        lemma_insert_listed_sorted(sort_listed(s.drop_last()), s.last());
    }
}

proof fn lemma_dedup_from(s: Seq<Keyed>, k: int)
    requires
        0 <= k < dedup_bundles(s).len(),
    ensures
        exists|m: int| 0 <= m < s.len() && s[m] == dedup_bundles(s)[k],
        k < dedup_bundles(s).len() - 1 ==> exists|m: int| 0 <= m < s.len() - 1 && s[m] == dedup_bundles(s)[k],
    decreases s.len(),
{
    if s.len() > 1 {
        let d0 = dedup_bundles(s.drop_last());
        if k < d0.len() {
            lemma_dedup_from(s.drop_last(), k);
            let m = choose|m: int| 0 <= m < s.drop_last().len() && s.drop_last()[m] == d0[k];
            assert(s[m] == dedup_bundles(s)[k]);
        } else {
            assert(dedup_bundles(s)[k] == s[s.len() - 1]);
        }
    } else {
        assert(s[k] == dedup_bundles(s)[k]);
    }
}

proof fn lemma_dedup_sorted(s: Seq<Keyed>)
    requires
        sorted_listing(s),
    ensures
        sorted_listing(dedup_bundles(s)),
    decreases s.len(),
{
    if s.len() > 1 {
        let s0 = s.drop_last();
        assert(sorted_listing(s0)) by {
            assert forall|i: int, j: int| 0 <= i < j < s0.len() implies listed_no_later(#[trigger] s0[i], #[trigger] s0[j]) by {
                assert(listed_no_later(s[i], s[j]));
            }
        }
        lemma_dedup_sorted(s0);
        let d0 = dedup_bundles(s0);
        let d = dedup_bundles(s);
        assert forall|i: int, j: int| 0 <= i < j < d.len() implies listed_no_later(#[trigger] d[i], #[trigger] d[j]) by {
            if j >= d0.len() {
                lemma_dedup_from(s0, i);
                let m = choose|m: int| 0 <= m < s0.len() && s0[m] == d0[i];
                assert(listed_no_later(s[m], s[s.len() - 1]));
            }
        }
    }
}

proof fn lemma_dedup_last(s: Seq<Keyed>)
    requires
        s.len() > 0,
    ensures
        dedup_bundles(s).len() > 0,
        same_bundle(dedup_bundles(s).last().entry, s.last().entry),
    decreases s.len(),
{
    if s.len() > 1 {
        lemma_dedup_last(s.drop_last());
    }
}

proof fn lemma_dedup_adjacent(s: Seq<Keyed>)
    ensures
        forall|i: int| 0 <= i && i + 1 < dedup_bundles(s).len() ==> !same_bundle(
            (#[trigger] dedup_bundles(s)[i]).entry,
            dedup_bundles(s)[i + 1].entry,
        ),
    decreases s.len(),
{
    if s.len() > 1 {
        let s0 = s.drop_last();
        lemma_dedup_adjacent(s0);
        lemma_dedup_last(s0);
        let d0 = dedup_bundles(s0);
        let d = dedup_bundles(s);
        assert forall|i: int| 0 <= i && i + 1 < d.len() implies !same_bundle((#[trigger] d[i]).entry, d[i + 1].entry) by {
            if i + 1 < d0.len() {
                assert(d[i] == d0[i] && d[i + 1] == d0[i + 1]);
            } else {
                assert(d[i] == d0.last());
                assert(d[i + 1] == s.last());
            }
        }
    }
}

/// Every entry of `s` has an entry for the same bundle in `dedup_bundles(s)`.
proof fn lemma_dedup_covers(s: Seq<Keyed>, m: int)
    requires
        0 <= m < s.len(),
    ensures
        exists|i: int| 0 <= i < dedup_bundles(s).len() && same_bundle(#[trigger] dedup_bundles(s)[i].entry, s[m].entry),
    decreases s.len(),
{
    let d = dedup_bundles(s);
    if s.len() <= 1 {
        assert(same_bundle(d[m].entry, s[m].entry));
    } else {
        let s0 = s.drop_last();
        let d0 = dedup_bundles(s0);
        if m < s.len() - 1 {
            lemma_dedup_covers(s0, m);
            let i = choose|i: int| 0 <= i < d0.len() && same_bundle(#[trigger] d0[i].entry, s0[m].entry);
            assert(d[i] == d0[i]);
            assert(same_bundle(d[i].entry, s[m].entry));
        } else if same_bundle(s.last().entry, s[s.len() - 2].entry) {
            lemma_dedup_covers(s0, s.len() - 2);
            let i = choose|i: int| 0 <= i < d0.len() && same_bundle(#[trigger] d0[i].entry, s0[s.len() - 2].entry);
            assert(d[i] == d0[i]);
            assert(same_bundle(d[i].entry, s[m].entry));
        } else {
            assert(d[d0.len() as int] == s.last());
            assert(same_bundle(d[d0.len() as int].entry, s[m].entry));
        }
    }
}

/// The ordered list is sorted by key then bundle path, no two neighbouring entries
/// stand for the same bundle, and every given entry's bundle keeps an entry.
pub proof fn law_ordered_listing(keyed: Seq<Keyed>)
    ensures
        sorted_listing(dedup_bundles(sort_listed(keyed))),
        ordered_listing(keyed) == strip(dedup_bundles(sort_listed(keyed))),
        forall|i: int| 0 <= i && i + 1 < ordered_listing(keyed).len() ==> !same_bundle(
            #[trigger] ordered_listing(keyed)[i],
            ordered_listing(keyed)[i + 1],
        ),
        forall|m: int| 0 <= m < keyed.len() ==> exists|i: int| 0 <= i < ordered_listing(keyed).len()
            && same_bundle(#[trigger] ordered_listing(keyed)[i], (#[trigger] keyed[m]).entry),
{
    let sorted = sort_listed(keyed);
    let d = dedup_bundles(sorted);
    lemma_sort_listed_sorted(keyed);
    lemma_dedup_sorted(sorted);
    lemma_dedup_adjacent(sorted);
    let out = ordered_listing(keyed);
    assert forall|i: int| 0 <= i && i + 1 < out.len() implies !same_bundle(#[trigger] out[i], out[i + 1]) by {
        assert(out[i] == d[i].entry);
        assert(out[i + 1] == d[i + 1].entry);
    }
    assert forall|m: int| 0 <= m < keyed.len() implies exists|i: int| 0 <= i < out.len() && same_bundle(
        #[trigger] out[i],
        (#[trigger] keyed[m]).entry,
    ) by {
        lemma_sort_listed_elements(keyed, keyed[m]);
        let p = choose|p: int| 0 <= p < sorted.len() && sorted[p] == keyed[m];
        lemma_dedup_covers(sorted, p);
        let i = choose|i: int| 0 <= i < d.len() && same_bundle(#[trigger] d[i].entry, sorted[p].entry);
        assert(out[i] == d[i].entry);
    }
}

/// Two picker entries in the order of their lowercased names, then bundle paths.
pub open spec fn entry_no_later(a: AudioApplication, b: AudioApplication) -> bool {
    chars_lt(lowercase(a.identity.name@), lowercase(b.identity.name@)) || (lowercase(a.identity.name@)
        == lowercase(b.identity.name@) && chars_le(a.identity.bundle_path@, b.identity.bundle_path@))
}

/// The picker's list is sorted by lowercased name, then bundle path, no two
/// neighbouring entries stand for the same bundle, and every running application of
/// the snapshot, idle or not, keeps an entry for its bundle.
pub proof fn law_listing(snap: Snapshot)
    ensures
        forall|i: int, j: int| 0 <= i < j < listing(snap).len() ==> entry_no_later(
            #[trigger] listing(snap)[i],
            #[trigger] listing(snap)[j],
        ),
        forall|i: int| 0 <= i && i + 1 < listing(snap).len() ==> !same_bundle(
            #[trigger] listing(snap)[i],
            listing(snap)[i + 1],
        ),
        forall|a: int| 0 <= a < snap.apps@.len() ==> exists|i: int| 0 <= i < listing(snap).len()
            && (#[trigger] listing(snap)[i]).identity.bundle_id@ == (#[trigger] snap.apps@[a]).identity.bundle_id@
            && listing(snap)[i].identity.bundle_path@ == snap.apps@[a].identity.bundle_path@,
{
    let keyed = snap.apps@.map_values(|a: App| keyed_entry(a, snap));
    law_ordered_listing(keyed);
    let sorted = sort_listed(keyed);
    let d = dedup_bundles(sorted);
    let out = listing(snap);
    assert(out == strip(d));
    assert forall|i: int, j: int| 0 <= i < j < out.len() implies entry_no_later(#[trigger] out[i], #[trigger] out[j]) by {
        assert(listed_no_later(d[i], d[j]));
        lemma_dedup_from(sorted, i);
        lemma_dedup_from(sorted, j);
        let p = choose|p: int| 0 <= p < sorted.len() && sorted[p] == d[i];
        let q = choose|q: int| 0 <= q < sorted.len() && sorted[q] == d[j];
        assert(sorted.contains(d[i]));
        assert(sorted.contains(d[j]));
        lemma_sort_listed_elements(keyed, d[i]);
        lemma_sort_listed_elements(keyed, d[j]);
        let a = choose|a: int| 0 <= a < keyed.len() && keyed[a] == d[i];
        let b = choose|b: int| 0 <= b < keyed.len() && keyed[b] == d[j];
        assert(d[i].key == lowercase(d[i].entry.identity.name@));
        assert(d[j].key == lowercase(d[j].entry.identity.name@));
        assert(out[i] == d[i].entry);
        assert(out[j] == d[j].entry);
    }
    assert forall|a: int| 0 <= a < snap.apps@.len() implies exists|i: int| 0 <= i < out.len()
        && (#[trigger] out[i]).identity.bundle_id@ == (#[trigger] snap.apps@[a]).identity.bundle_id@
        && out[i].identity.bundle_path@ == snap.apps@[a].identity.bundle_path@ by {
        assert(keyed[a].entry.identity == snap.apps@[a].identity);
        let i = choose|i: int| 0 <= i < out.len() && same_bundle(#[trigger] out[i], keyed[a].entry);
    }
}


/// Exactly one component is an application bundle.
#[verifier::opaque]
pub open spec fn single_bundle_part(parts: Seq<PathPart>) -> bool {
    exists|k: int|
        0 <= k < parts.len() && is_bundle_part(#[trigger] parts[k]) && forall|m: int|
            0 <= m < parts.len() && m != k ==> !is_bundle_part(#[trigger] parts[m])
}

proof fn lemma_bundle_count(parts: Seq<PathPart>)
    ensures
        bundle_part_count(parts) == 0 <==> forall|m: int| 0 <= m < parts.len() ==> !is_bundle_part(#[trigger] parts[m]),
        bundle_part_count(parts) == 1 <==> single_bundle_part(parts),
    decreases parts.len(),
{
    reveal(single_bundle_part);
    if parts.len() > 0 {
        let init = parts.drop_last();
        let n = parts.len() - 1;
        lemma_bundle_count(init);
        assert forall|m: int| 0 <= m < n implies parts[m] == init[m] by {}
        if bundle_part_count(parts) == 0 {
            assert forall|m: int| 0 <= m < parts.len() implies !is_bundle_part(#[trigger] parts[m]) by {
                if m < n {
                    assert(parts[m] == init[m]);
                }
            }
        }
        if forall|m: int| 0 <= m < parts.len() ==> !is_bundle_part(#[trigger] parts[m]) {
            assert(!is_bundle_part(parts[n]));
            assert forall|m: int| 0 <= m < init.len() implies !is_bundle_part(#[trigger] init[m]) by {
                assert(!is_bundle_part(parts[m]));
            }
        }
        if bundle_part_count(parts) == 1 {
            if is_bundle_part(parts.last()) {
                assert forall|m: int| 0 <= m < parts.len() && m != n implies !is_bundle_part(#[trigger] parts[m]) by {
                    assert(parts[m] == init[m]);
                }
                assert(is_bundle_part(parts[n]));
            } else {
                let k = choose|k: int|
                    0 <= k < init.len() && is_bundle_part(#[trigger] init[k]) && forall|m: int|
                        0 <= m < init.len() && m != k ==> !is_bundle_part(#[trigger] init[m]);
                assert(is_bundle_part(parts[k]));
                assert forall|m: int| 0 <= m < parts.len() && m != k implies !is_bundle_part(#[trigger] parts[m]) by {
                    if m < n {
                        assert(parts[m] == init[m]);
                    }
                }
            }
        }
        if single_bundle_part(parts) {
            let k = choose|k: int|
                0 <= k < parts.len() && is_bundle_part(#[trigger] parts[k]) && forall|m: int|
                    0 <= m < parts.len() && m != k ==> !is_bundle_part(#[trigger] parts[m]);
            if k == n {
                assert forall|m: int| 0 <= m < init.len() implies !is_bundle_part(#[trigger] init[m]) by {
                    assert(!is_bundle_part(parts[m]));
                }
            } else {
                assert(!is_bundle_part(parts[n]));
                assert(is_bundle_part(init[k]));
                assert forall|m: int| 0 <= m < init.len() && m != k implies !is_bundle_part(#[trigger] init[m]) by {
                    assert(!is_bundle_part(parts[m]));
                }
            }
        }
    }
}

/// A running application that the picker offers: not this process, not terminated,
/// with a bundle identifier and a bundle path that holds exactly one application
/// bundle component, at any depth.
pub open spec fn offered(r: RunningApplication, own_pid: u32) -> bool {
    &&& r.pid != own_pid
    &&& !r.terminated
    &&& r.bundle_id is Some
    &&& r.bundle_path is Some
    &&& single_bundle_part(path_parts(r.bundle_path.unwrap()@))
}

/// The application that an offered running application stands for: its PID, bundle
/// identifier and path, and its name, or the identifier where it has none.
pub open spec fn app_for(r: RunningApplication) -> App {
    App {
        pid: r.pid,
        identity: ApplicationIdentity {
            bundle_id: r.bundle_id.unwrap(),
            bundle_path: r.bundle_path.unwrap(),
            name: match r.localized_name {
                Some(n) => n,
                None => r.bundle_id.unwrap(),
            },
        },
    }
}

proof fn lemma_candidate_offered(r: RunningApplication, own_pid: u32)
    ensures
        candidate_app(r, own_pid) == if offered(r, own_pid) {
            Some(app_for(r))
        } else {
            None
        },
{
    match r.bundle_path {
        Some(p) => lemma_bundle_count(path_parts(p@)),
        None => {},
    }
}

proof fn lemma_candidate_apps_step(rs: Seq<RunningApplication>, own_pid: u32)
    requires
        rs.len() > 0,
    ensures
        candidate_apps(rs, own_pid) == candidate_apps(rs.drop_last(), own_pid) + if offered(rs.last(), own_pid) {
            seq![app_for(rs.last())]
        } else {
            Seq::<App>::empty()
        },
{
    lemma_candidate_offered(rs.last(), own_pid);
}

proof fn lemma_snapshot_keeps_offered(rs: Seq<RunningApplication>, own_pid: u32)
    ensures
        forall|i: int|
            0 <= i < rs.len() && offered(#[trigger] rs[i], own_pid) ==> candidate_apps(rs, own_pid).contains(
                app_for(rs[i]),
            ),
    decreases rs.len(),
{
    if rs.len() > 0 {
        let init = rs.drop_last();
        lemma_snapshot_keeps_offered(init, own_pid);
        lemma_candidate_apps_step(rs, own_pid);
        let c0 = candidate_apps(init, own_pid);
        let c = candidate_apps(rs, own_pid);
        assert forall|i: int| 0 <= i < rs.len() && offered(#[trigger] rs[i], own_pid) implies c.contains(
            app_for(rs[i]),
        ) by {
            if i < rs.len() - 1 {
                assert(init[i] == rs[i]);
                assert(c0.contains(app_for(init[i])));
                let j = choose|j: int| 0 <= j < c0.len() && c0[j] == app_for(init[i]);
                assert(c[j] == c0[j]);
            } else {
                assert(c[c0.len() as int] == app_for(rs[i]));
            }
        }
    }
}

proof fn lemma_snapshot_only_offered(rs: Seq<RunningApplication>, own_pid: u32)
    ensures
        forall|a: App|
            #[trigger] candidate_apps(rs, own_pid).contains(a) ==> exists|i: int|
                0 <= i < rs.len() && offered(#[trigger] rs[i], own_pid) && a == app_for(rs[i]),
    decreases rs.len(),
{
    if rs.len() > 0 {
        let init = rs.drop_last();
        lemma_snapshot_only_offered(init, own_pid);
        lemma_candidate_apps_step(rs, own_pid);
        let c0 = candidate_apps(init, own_pid);
        let c = candidate_apps(rs, own_pid);
        assert forall|a: App| #[trigger] c.contains(a) implies exists|i: int|
            0 <= i < rs.len() && offered(#[trigger] rs[i], own_pid) && a == app_for(rs[i]) by {
            let j = choose|j: int| 0 <= j < c.len() && c[j] == a;
            if j < c0.len() {
                assert(c[j] == c0[j]);
                assert(c0.contains(a));
                let i = choose|i: int| 0 <= i < init.len() && offered(#[trigger] init[i], own_pid) && a == app_for(
                    init[i],
                );
                assert(rs[i] == init[i]);
            } else {
                let n = rs.len() - 1;
                assert(offered(rs[n], own_pid));
                assert(c[j] == app_for(rs[n]));
            }
        }
    }
}

/// A snapshot holds an application for exactly the offered running applications:
/// every offered one is there, and each one there stands for an offered one.
pub proof fn law_snapshot_apps(rs: Seq<RunningApplication>, own_pid: u32)
    ensures
        forall|i: int|
            0 <= i < rs.len() && offered(#[trigger] rs[i], own_pid) ==> candidate_apps(rs, own_pid).contains(
                app_for(rs[i]),
            ),
        forall|a: App|
            #[trigger] candidate_apps(rs, own_pid).contains(a) ==> exists|i: int|
                0 <= i < rs.len() && offered(#[trigger] rs[i], own_pid) && a == app_for(rs[i]),
{
    lemma_snapshot_keeps_offered(rs, own_pid);
    lemma_snapshot_only_offered(rs, own_pid);
}

/// An application's picker entry is active exactly when some audio process of the
/// snapshot with running output belongs to it, whatever other audio processes belong
/// to it.
pub proof fn law_entry_activity(app: App, snap: Snapshot)
    ensures
        listing_entry(app, snap).identity == app.identity,
        listing_entry(app, snap).audio_active <==> exists|i: int|
            0 <= i < snap.audio@.len() && (#[trigger] snap.audio@[i]).2 && owned_by(
                snap.audio@[i].1,
                app,
                snap.processes@,
            ),
{
}

/// Every entry of the picker's list is the entry of a running application of the
/// snapshot, active exactly when some audio process with running output belongs to
/// that application.
pub proof fn law_listing_activity(snap: Snapshot)
    ensures
        forall|k: int|
            0 <= k < listing(snap).len() ==> exists|a: int|
                0 <= a < snap.apps@.len() && (#[trigger] listing(snap)[k]).identity == (#[trigger] snap.apps@[a]).identity
                    && (listing(snap)[k].audio_active <==> exists|i: int|
                    0 <= i < snap.audio@.len() && (#[trigger] snap.audio@[i]).2 && owned_by(
                        snap.audio@[i].1,
                        snap.apps@[a],
                        snap.processes@,
                    )),
{
    let keyed = snap.apps@.map_values(|a: App| keyed_entry(a, snap));
    let sorted = sort_listed(keyed);
    let d = dedup_bundles(sorted);
    let out = listing(snap);
    assert(out == strip(d));
    assert forall|k: int| 0 <= k < out.len() implies exists|a: int|
        0 <= a < snap.apps@.len() && (#[trigger] out[k]).identity == (#[trigger] snap.apps@[a]).identity && (
        out[k].audio_active <==> exists|i: int|
            0 <= i < snap.audio@.len() && (#[trigger] snap.audio@[i]).2 && owned_by(
                snap.audio@[i].1,
                snap.apps@[a],
                snap.processes@,
            )) by {
        lemma_dedup_from(sorted, k);
        let p = choose|p: int| 0 <= p < sorted.len() && sorted[p] == d[k];
        assert(sorted.contains(d[k]));
        lemma_sort_listed_elements(keyed, d[k]);
        let a = choose|a: int| 0 <= a < keyed.len() && keyed[a] == d[k];
        assert(keyed[a] == keyed_entry(snap.apps@[a], snap));
        assert(out[k] == d[k].entry);
        law_entry_activity(snap.apps@[a], snap);
    }
}

} // verus!
