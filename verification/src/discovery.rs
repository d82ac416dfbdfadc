//! Application discovery: which running processes belong to an application. Every
//! snapshot is judged afresh; only bundle identity survives between snapshots.
use vstd::prelude::*;
use std::collections::HashMap;
use std::collections::HashSet;
use crate::paths::{has_bundle_component, has_bundle_part, path_starts_with, starts_with};
use crate::source::ApplicationIdentity;

verus! {

broadcast use vstd::std_specs::hash::group_hash_axioms;

/// A running application with the PID of its main process.
#[derive(Debug)]
pub struct App {
    pub identity: ApplicationIdentity,
    pub pid: u32,
}

/// A process of a snapshot: its parent and the path of its executable, where known.
#[derive(Debug, Clone)]
pub struct Process {
    pub parent: Option<u32>,
    pub executable: Option<String>,
}

/// `pid` is the application's main process, or a process whose executable lies
/// inside the application's bundle: evidence that the process is the application's.
pub open spec fn is_owned_end(pid: u32, app: App, procs: Map<u32, Process>) -> bool {
    pid == app.pid || (procs.contains_key(pid) && match procs[pid].executable {
        Some(exe) => path_starts_with(exe@, app.identity.bundle_path@),
        None => false,
    })
}

/// `pid` is a known process other than the application's main process whose
/// executable gives no evidence: it lies neither inside the bundle nor inside
/// another application bundle. Such a process belongs where its parent belongs.
pub open spec fn is_neutral(pid: u32, app: App, procs: Map<u32, Process>) -> bool {
    &&& pid != app.pid
    &&& procs.contains_key(pid)
    &&& match procs[pid].executable {
        Some(exe) => !path_starts_with(exe@, app.identity.bundle_path@) && !has_bundle_part(exe@),
        None => true,
    }
}

/// Ownership passes from `pid` to its parent `next`.
pub open spec fn is_link(pid: u32, next: u32, app: App, procs: Map<u32, Process>) -> bool {
    is_neutral(pid, app, procs) && procs[pid].parent == Some(next)
}

/// Ownership passes from the `i`-th process of `s` to the next one.
pub open spec fn linked_at(s: Seq<u32>, i: int, app: App, procs: Map<u32, Process>) -> bool {
    is_link(s[i], s[i + 1], app, procs)
}

/// A chain of distinct processes, each the parent of the one before, that passes only
/// through neutral processes and ends at evidence of ownership.
pub open spec fn is_ownership_chain(chain: Seq<u32>, app: App, procs: Map<u32, Process>) -> bool {
    &&& chain.len() > 0
    &&& chain.no_duplicates()
    &&& forall|i: int| 0 <= i && i + 1 < chain.len() ==> #[trigger] linked_at(chain, i, app, procs)
    &&& is_owned_end(chain.last(), app, procs)
}

/// `pid` belongs to `app` in the process table `procs`: an ownership chain starts at it.
pub open spec fn owned_by(pid: u32, app: App, procs: Map<u32, Process>) -> bool {
    exists|chain: Seq<u32>| chain[0] == pid && #[trigger] is_ownership_chain(chain, app, procs)
}

/// Extending a walk by the parent of its last process keeps every step linked.
proof fn lemma_walk_push(path: Seq<u32>, p: u32, app: App, procs: Map<u32, Process>)
    requires
        forall|i: int| 0 <= i && i + 1 < path.len() ==> #[trigger] linked_at(path, i, app, procs),
        path.len() > 0 ==> is_link(path.last(), p, app, procs),
    ensures
        forall|i: int|
            0 <= i && i + 1 < path.push(p).len() ==> #[trigger] linked_at(path.push(p), i, app, procs),
{
    let s = path.push(p);
    assert forall|i: int| 0 <= i && i + 1 < s.len() implies #[trigger] linked_at(s, i, app, procs) by {
        if i + 1 < path.len() {
            assert(linked_at(path, i, app, procs));
        }
        assert(s[i] == path[i]);
    }
}

/// Dropping the last process of a walk keeps every step linked.
proof fn lemma_walk_drop_last(path: Seq<u32>, app: App, procs: Map<u32, Process>)
    requires
        path.len() > 0,
        forall|i: int| 0 <= i && i + 1 < path.len() ==> #[trigger] linked_at(path, i, app, procs),
    ensures
        forall|i: int|
            0 <= i && i + 1 < path.drop_last().len() ==> #[trigger] linked_at(path.drop_last(), i, app, procs),
{
    let s = path.drop_last();
    assert forall|i: int| 0 <= i && i + 1 < s.len() implies #[trigger] linked_at(s, i, app, procs) by {
        assert(linked_at(path, i, app, procs));
    }
}

/// Any ownership chain from `pid` follows the walk `path` (processes already passed
/// through, each linked to the next) and continues at `p`.
proof fn lemma_chain_follows_walk(
    chain: Seq<u32>,
    path: Seq<u32>,
    p: u32,
    pid: u32,
    app: App,
    procs: Map<u32, Process>,
)
    requires
        is_ownership_chain(chain, app, procs),
        chain[0] == pid,
        path.len() == 0 ==> p == pid,
        path.len() > 0 ==> path[0] == pid && is_link(path.last(), p, app, procs),
        forall|i: int| 0 <= i && i + 1 < path.len() ==> #[trigger] linked_at(path, i, app, procs),
    ensures
        chain.len() > path.len(),
        chain.subrange(0, path.len() as int) == path,
        chain[path.len() as int] == p,
    decreases path.len(),
{
    if path.len() > 0 {
        let k = (path.len() - 1) as int;
        let prev = path.drop_last();
        lemma_walk_drop_last(path, app, procs);
        if prev.len() > 0 {
            assert(linked_at(path, k - 1, app, procs));
        }
        lemma_chain_follows_walk(chain, prev, path.last(), pid, app, procs);
        assert(chain[k] == path.last());
        assert(k + 1 < chain.len());
        assert(linked_at(chain, k, app, procs));
        assert(chain.subrange(0, path.len() as int) =~= path);
    }
}

/// Whether the process `pid` belongs to `app` in `processes`. Ownership needs
/// evidence: the process is the application's main process, runs an executable inside
/// its bundle, or descends from such a process through processes without evidence of
/// their own. The walk stops at another application's bundle, at an unknown process
/// and at a cycle.
pub fn belongs_to_app(pid: u32, app: &App, processes: &HashMap<u32, Process>) -> (r: bool)
    ensures
        r == owned_by(pid, *app, processes@),
{
    let ghost procs = processes@;
    let mut next: Option<u32> = Some(pid);
    let mut visited: HashSet<u32> = HashSet::new();
    let ghost mut path: Seq<u32> = seq![];
    proof {
        assert(visited@ =~= path.to_set());
    }
    loop
        invariant
            procs == processes@,
            visited@ == path.to_set(),
            path.no_duplicates(),
            visited@.subset_of(procs.dom()),
            procs.dom().finite(),
            forall|i: int| 0 <= i && i + 1 < path.len() ==> #[trigger] linked_at(path, i, *app, procs),
            path.len() == 0 ==> next == Some(pid),
            path.len() > 0 ==> path[0] == pid && is_neutral(path.last(), *app, procs) && next
                == procs[path.last()].parent,
        decreases procs.dom().len() - visited@.len(),
    {
        let p = match next {
            None => {
                proof {
                    if owned_by(pid, *app, procs) {
                        let chain = choose|chain: Seq<u32>|
                            chain[0] == pid && #[trigger] is_ownership_chain(chain, *app, procs);
                        let k = (path.len() - 1) as int;
                        assert(chain.len() > k && chain[k] == path.last()) by {
                            if k > 0 {
                                assert(linked_at(path, k - 1, *app, procs));
                                lemma_walk_drop_last(path, *app, procs);
                                lemma_chain_follows_walk(
                                    chain,
                                    path.drop_last(),
                                    path.last(),
                                    pid,
                                    *app,
                                    procs,
                                );
                            }
                        }
                        assert(!is_owned_end(chain[k], *app, procs));
                        assert(linked_at(chain, k, *app, procs));
                    }
                }
                return false;
            },
            Some(p) => p,
        };
        proof {
            if path.len() > 0 {
                assert(is_link(path.last(), p, *app, procs));
            }
        }
        let ghost old_visited = visited@;
        if !visited.insert(p) {
            proof {
                if owned_by(pid, *app, procs) {
                    let chain = choose|chain: Seq<u32>|
                        chain[0] == pid && #[trigger] is_ownership_chain(chain, *app, procs);
                    lemma_chain_follows_walk(chain, path, p, pid, *app, procs);
                    let j = choose|j: int| 0 <= j < path.len() && path[j] == p;
                    assert(chain[j] == path[j]);
                    assert(chain[path.len() as int] == p);
                }
            }
            return false;
        }
        if p == app.pid {
            proof {
                let chain = path.push(p);
                lemma_walk_push(path, p, *app, procs);
                assert(chain[0] == pid);
                assert(chain.no_duplicates()) by {
                    assert(!path.contains(p));
                }
                assert(is_ownership_chain(chain, *app, procs));
            }
            return true;
        }
        let process = match processes.get(&p) {
            None => {
                proof {
                    if owned_by(pid, *app, procs) {
                        let chain = choose|chain: Seq<u32>|
                            chain[0] == pid && #[trigger] is_ownership_chain(chain, *app, procs);
                        lemma_chain_follows_walk(chain, path, p, pid, *app, procs);
                        let k = path.len() as int;
                        if k + 1 < chain.len() {
                            assert(linked_at(chain, k, *app, procs));
                        }
                    }
                }
                return false;
            },
            Some(process) => process,
        };
        if let Some(exe) = &process.executable {
            if starts_with(exe.as_str(), app.identity.bundle_path.as_str()) {
                proof {
                    let chain = path.push(p);
                    lemma_walk_push(path, p, *app, procs);
                    assert(chain[0] == pid);
                    assert(chain.no_duplicates()) by {
                        assert(!path.contains(p));
                    }
                    assert(is_ownership_chain(chain, *app, procs));
                }
                return true;
            }
            if has_bundle_component(exe.as_str()) {
                proof {
                    if owned_by(pid, *app, procs) {
                        let chain = choose|chain: Seq<u32>|
                            chain[0] == pid && #[trigger] is_ownership_chain(chain, *app, procs);
                        lemma_chain_follows_walk(chain, path, p, pid, *app, procs);
                        let k = path.len() as int;
                        if k + 1 < chain.len() {
                            assert(linked_at(chain, k, *app, procs));
                        }
                    }
                }
                return false;
            }
        }
        proof {
            assert(is_neutral(p, *app, procs));
            vstd::set_lib::lemma_len_subset(old_visited, procs.dom());
            assert(visited@ == old_visited.insert(p));
            assert(visited@.len() == old_visited.len() + 1);
            vstd::set_lib::lemma_len_subset(visited@, procs.dom());
            let new_path = path.push(p);
            lemma_walk_push(path, p, *app, procs);
            assert(new_path.to_set() =~= path.to_set().insert(p)) by {
                assert forall|x: u32| new_path.to_set().contains(x) implies path.to_set().insert(p).contains(x) by {
                    let i = choose|i: int| 0 <= i < new_path.len() && new_path[i] == x;
                    if i < path.len() {
                        assert(path[i] == x);
                    }
                }
                assert forall|x: u32| path.to_set().insert(p).contains(x) implies new_path.to_set().contains(x) by {
                    if x == p {
                        assert(new_path[path.len() as int] == p);
                    } else {
                        let i = choose|i: int| 0 <= i < path.len() && path[i] == x;
                        assert(new_path[i] == x);
                    }
                }
            }
            assert(new_path.no_duplicates()) by {
                assert(!path.contains(p));
            }
            path = new_path;
        }
        next = process.parent;
    }
}


/// An application's main process belongs to it, whatever its executable.
pub proof fn law_main_process_belongs(app: App, procs: Map<u32, Process>)
    ensures
        owned_by(app.pid, app, procs),
{
    let chain = seq![app.pid];
    assert(chain[0] == app.pid);
    assert(is_ownership_chain(chain, app, procs));
}

/// A known process whose executable lies inside the application's bundle belongs to
/// the application, nested helper bundles included.
pub proof fn law_bundle_executable_belongs(pid: u32, app: App, procs: Map<u32, Process>)
    requires
        procs.contains_key(pid),
        procs[pid].executable matches Some(exe) && path_starts_with(exe@, app.identity.bundle_path@),
    ensures
        owned_by(pid, app, procs),
{
    let chain = seq![pid];
    assert(chain[0] == pid);
    assert(is_ownership_chain(chain, app, procs));
}

/// A process that is neither the main process nor known to the process table does
/// not belong to the application: a remembered PID is no evidence.
pub proof fn law_unknown_process_does_not_belong(pid: u32, app: App, procs: Map<u32, Process>)
    requires
        pid != app.pid,
        !procs.contains_key(pid),
    ensures
        !owned_by(pid, app, procs),
{
    if owned_by(pid, app, procs) {
        let chain = choose|chain: Seq<u32>| chain[0] == pid && #[trigger] is_ownership_chain(chain, app, procs);
        if chain.len() > 1 {
            assert(linked_at(chain, 0, app, procs));
        }
    }
}

/// A process running inside another application's bundle does not belong to the
/// application, whatever its parent: the walk stops at other applications.
pub proof fn law_other_bundle_does_not_belong(pid: u32, app: App, procs: Map<u32, Process>)
    requires
        pid != app.pid,
        procs.contains_key(pid),
        procs[pid].executable matches Some(exe) && !path_starts_with(exe@, app.identity.bundle_path@)
            && has_bundle_part(exe@),
    ensures
        !owned_by(pid, app, procs),
{
    if owned_by(pid, app, procs) {
        let chain = choose|chain: Seq<u32>| chain[0] == pid && #[trigger] is_ownership_chain(chain, app, procs);
        if chain.len() > 1 {
            assert(linked_at(chain, 0, app, procs));
        }
    }
}

/// A process without evidence of its own belongs to the application exactly when
/// its parent does: descendant helpers are grouped with the application that
/// launched them.
pub proof fn law_neutral_process_follows_parent(pid: u32, parent: u32, app: App, procs: Map<u32, Process>)
    requires
        is_link(pid, parent, app, procs),
    ensures
        owned_by(pid, app, procs) == owned_by(parent, app, procs),
{
    if owned_by(pid, app, procs) {
        let chain = choose|chain: Seq<u32>| chain[0] == pid && #[trigger] is_ownership_chain(chain, app, procs);
        assert(chain.len() > 1);
        assert(linked_at(chain, 0, app, procs));
        let rest = chain.drop_first();
        assert(rest[0] == parent);
        assert forall|i: int| 0 <= i && i + 1 < rest.len() implies #[trigger] linked_at(rest, i, app, procs) by {
            assert(linked_at(chain, i + 1, app, procs));
        }
        assert(rest.no_duplicates()) by {
            assert forall|i: int, j: int| 0 <= i < rest.len() && 0 <= j < rest.len() && i != j implies rest[i] != rest[j] by {
                assert(chain[i + 1] != chain[j + 1]);
            }
        }
        assert(is_ownership_chain(rest, app, procs));
    }
    if owned_by(parent, app, procs) {
        let chain = choose|chain: Seq<u32>| chain[0] == parent && #[trigger] is_ownership_chain(chain, app, procs);
        assert(!chain.contains(pid)) by {
            if chain.contains(pid) {
                let i = choose|i: int| 0 <= i < chain.len() && chain[i] == pid;
                assert(i + 1 < chain.len());
                assert(linked_at(chain, i, app, procs));
                assert(chain[i + 1] == chain[0]);
            }
        }
        let full = seq![pid] + chain;
        assert(full[0] == pid);
        assert forall|i: int| 0 <= i && i + 1 < full.len() implies #[trigger] linked_at(full, i, app, procs) by {
            if i > 0 {
                assert(linked_at(chain, i - 1, app, procs));
            }
        }
        assert(full.no_duplicates()) by {
            assert forall|i: int, j: int| 0 <= i < full.len() && 0 <= j < full.len() && i != j implies full[i] != full[j] by {
                if i == 0 {
                    assert(full[j] == chain[j - 1]);
                } else if j == 0 {
                    assert(full[i] == chain[i - 1]);
                } else {
                    assert(chain[i - 1] != chain[j - 1]);
                }
            }
        }
        assert(full.last() == chain.last());
        assert(is_ownership_chain(full, app, procs));
    }
}

} // verus!
