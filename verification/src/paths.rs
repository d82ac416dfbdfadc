//! A model of Unix path components, with the operations that ownership checks need:
//! component-wise prefix matching, `.app` bundle components and absoluteness.
use vstd::prelude::*;
use crate::text::{chars_eq, chars_of};

verus! {

/// One component of a path, as a mathematical value.
pub enum PathPart {
    RootDir,
    CurDir,
    ParentDir,
    Normal(Seq<char>),
}

/// One component of a path.
pub enum Component {
    RootDir,
    CurDir,
    ParentDir,
    Normal(Vec<char>),
}

impl View for Component {
    type V = PathPart;

    open spec fn view(&self) -> PathPart {
        match self {
            Component::RootDir => PathPart::RootDir,
            Component::CurDir => PathPart::CurDir,
            Component::ParentDir => PathPart::ParentDir,
            Component::Normal(v) => PathPart::Normal(v@),
        }
    }
}

pub open spec fn part_views(v: Seq<Component>) -> Seq<PathPart> {
    v.map_values(|c: Component| c@)
}

pub open spec fn char_views(v: Seq<Vec<char>>) -> Seq<Seq<char>> {
    v.map_values(|x: Vec<char>| x@)
}

/// The segment being read, emitted once it is complete and not empty.
pub open spec fn emit(cur: Seq<char>) -> Seq<Seq<char>> {
    if cur.len() > 0 {
        seq![cur]
    } else {
        seq![]
    }
}

/// Splits `p` at every `/`, with `cur` the part of a segment read before `p`;
/// empty segments are dropped.
pub open spec fn segments_from(p: Seq<char>, cur: Seq<char>) -> Seq<Seq<char>>
    decreases p.len(),
{
    if p.len() == 0 {
        emit(cur)
    } else if p[0] == '/' {
        emit(cur) + segments_from(p.drop_first(), seq![])
    } else {
        segments_from(p.drop_first(), cur.push(p[0]))
    }
}

/// The non-empty `/`-separated segments of `p`, in order.
pub open spec fn segments(p: Seq<char>) -> Seq<Seq<char>> {
    segments_from(p, seq![])
}

pub open spec fn dot() -> Seq<char> {
    seq!['.']
}

pub open spec fn dot_dot() -> Seq<char> {
    seq!['.', '.']
}

/// The components that a list of segments contributes: `.` is dropped, `..` is the
/// parent directory, anything else a normal component.
pub open spec fn body_parts(segs: Seq<Seq<char>>) -> Seq<PathPart>
    decreases segs.len(),
{
    if segs.len() == 0 {
        seq![]
    } else {
        let s = segs.last();
        body_parts(segs.drop_last()) + if s == dot() {
            Seq::<PathPart>::empty()
        } else if s == dot_dot() {
            seq![PathPart::ParentDir]
        } else {
            seq![PathPart::Normal(s)]
        }
    }
}

pub open spec fn is_rooted(p: Seq<char>) -> bool {
    p.len() > 0 && p[0] == '/'
}

/// A relative path that starts with `.` followed by a separator or nothing.
pub open spec fn starts_with_cur_dir(p: Seq<char>) -> bool {
    !is_rooted(p) && p.len() > 0 && p[0] == '.' && (p.len() == 1 || p[1] == '/')
}

/// The components of a Unix path: the root, a leading `.` of a relative path,
/// then one component per segment other than `.`.
pub open spec fn path_parts(p: Seq<char>) -> Seq<PathPart> {
    (if is_rooted(p) {
        seq![PathPart::RootDir]
    } else {
        Seq::<PathPart>::empty()
    }) + (if starts_with_cur_dir(p) {
        seq![PathPart::CurDir]
    } else {
        Seq::<PathPart>::empty()
    }) + body_parts(segments(p))
}

/// `path` lies under `base`: the components of `base` are a prefix of those of `path`.
pub open spec fn path_starts_with(path: Seq<char>, base: Seq<char>) -> bool {
    path_parts(base).is_prefix_of(path_parts(path))
}

pub open spec fn ends_with_app(s: Seq<char>) -> bool {
    s.len() >= 4 && s.subrange(s.len() - 4, s.len() as int) == seq!['.', 'a', 'p', 'p']
}

/// A normal component whose name ends with `.app`: an application bundle.
pub open spec fn is_bundle_part(c: PathPart) -> bool {
    match c {
        PathPart::Normal(s) => ends_with_app(s),
        _ => false,
    }
}

/// Some component of `path` is an application bundle.
pub open spec fn has_bundle_part(path: Seq<char>) -> bool {
    exists|i: int| 0 <= i < path_parts(path).len() && is_bundle_part(#[trigger] path_parts(path)[i])
}

/// The number of application-bundle components in a list of components.
pub open spec fn bundle_part_count(parts: Seq<PathPart>) -> nat
    decreases parts.len(),
{
    if parts.len() == 0 {
        0
    } else {
        bundle_part_count(parts.drop_last()) + if is_bundle_part(parts.last()) {
            1nat
        } else {
            0nat
        }
    }
}

/// An absolute Unix path is one that has a root.
pub open spec fn is_absolute(path: Seq<char>) -> bool {
    is_rooted(path)
}

/// Splits the characters of a path into its non-empty segments.
fn split_segments(cs: &Vec<char>) -> (r: Vec<Vec<char>>)
    ensures
        char_views(r@) == segments(cs@),
{
    let mut out: Vec<Vec<char>> = Vec::new();
    let mut cur: Vec<char> = Vec::new();
    let n = cs.len();
    let mut i: usize = 0;
    assert(cs@.skip(0) =~= cs@);
    while i < n
        invariant
            n == cs.len(),
            i <= n,
            segments(cs@) == char_views(out@) + segments_from(cs@.skip(i as int), cur@),
        decreases n - i,
    {
        let c = cs[i];
        let ghost rest = cs@.skip(i as int);
        assert(rest.drop_first() =~= cs@.skip(i + 1));
        assert(rest[0] == c);
        if c == '/' {
            if cur.len() > 0 {
                let ghost old_out = out@;
                let done = cur;
                out.push(done);
                assert(char_views(out@) =~= char_views(old_out) + emit(done@));
            } else {
                assert(emit(cur@) =~= Seq::<Seq<char>>::empty());
                assert(char_views(out@) + Seq::<Seq<char>>::empty() =~= char_views(out@));
            }
            cur = Vec::new();
            assert(char_views(out@) + segments_from(cs@.skip(i + 1), seq![]) =~= segments(cs@));
        } else {
            cur.push(c);
        }
        i += 1;
    }
    assert(cs@.skip(n as int) =~= Seq::<char>::empty());
    if cur.len() > 0 {
        let ghost old_out = out@;
        let ghost last = cur@;
        out.push(cur);
        assert(char_views(out@) =~= char_views(old_out) + emit(last));
    } else {
        assert(char_views(out@) + emit(cur@) =~= char_views(out@));
    }
    out
}


/// The components of the path `path`.
pub fn components(path: &str) -> (r: Vec<Component>)
    ensures
        part_views(r@) == path_parts(path@),
{
    let cs = chars_of(path);
    let n = cs.len();
    let rooted = n > 0 && cs[0] == '/';
    let mut out: Vec<Component> = Vec::new();
    if rooted {
        out.push(Component::RootDir);
    }
    if !rooted && n > 0 && cs[0] == '.' && (n == 1 || cs[1] == '/') {
        out.push(Component::CurDir);
    }
    let ghost head = part_views(out@);
    assert(head =~= (if is_rooted(path@) {
        seq![PathPart::RootDir]
    } else {
        Seq::<PathPart>::empty()
    }) + (if starts_with_cur_dir(path@) {
        seq![PathPart::CurDir]
    } else {
        Seq::<PathPart>::empty()
    }));
    let segs = split_segments(&cs);
    let ghost sv = char_views(segs@);
    let mut j: usize = 0;
    assert(sv.take(0) =~= Seq::<Seq<char>>::empty());
    assert(part_views(out@) =~= head + body_parts(sv.take(0)));
    while j < segs.len()
        invariant
            sv == char_views(segs@),
            j <= segs.len(),
            part_views(out@) == head + body_parts(sv.take(j as int)),
        decreases segs.len() - j,
    {
        let seg = &segs[j];
        let ghost before = out@;
        assert(sv.take(j + 1).drop_last() =~= sv.take(j as int));
        assert(sv.take(j + 1).last() == seg@);
        if seg.len() == 1 && seg[0] == '.' {
            assert(seg@ =~= dot());
            assert(part_views(out@) + Seq::<PathPart>::empty() =~= part_views(out@));
        } else if seg.len() == 2 && seg[0] == '.' && seg[1] == '.' {
            assert(seg@ =~= dot_dot());
            assert(seg@ != dot());
            out.push(Component::ParentDir);
            assert(part_views(out@) =~= part_views(before) + seq![PathPart::ParentDir]);
        } else {
            assert(seg@ != dot() && seg@ != dot_dot()) by {
                if seg@ == dot() {
                    assert(seg@.len() == 1 && seg@[0] == '.');
                }
                if seg@ == dot_dot() {
                    assert(seg@.len() == 2 && seg@[0] == '.' && seg@[1] == '.');
                }
            }
            out.push(Component::Normal(seg.clone()));
            assert(part_views(out@) =~= part_views(before) + seq![PathPart::Normal(seg@)]);
        }
        j += 1;
    }
    assert(sv.take(segs.len() as int) =~= sv);
    out
}

/// Whether two components are the same.
fn component_eq(a: &Component, b: &Component) -> (r: bool)
    ensures
        r == (a@ == b@),
{
    match (a, b) {
        (Component::RootDir, Component::RootDir) => true,
        (Component::CurDir, Component::CurDir) => true,
        (Component::ParentDir, Component::ParentDir) => true,
        (Component::Normal(x), Component::Normal(y)) => chars_eq(x, y),
        _ => false,
    }
}

/// Whether `path` lies under `base`, compared component by component.
pub fn starts_with(path: &str, base: &str) -> (r: bool)
    ensures
        r == path_starts_with(path@, base@),
{
    let a = components(path);
    let b = components(base);
    if b.len() > a.len() {
        return false;
    }
    let mut j: usize = 0;
    while j < b.len()
        invariant
            b.len() <= a.len(),
            j <= b.len(),
            part_views(a@) == path_parts(path@),
            part_views(b@) == path_parts(base@),
            forall|k: int| 0 <= k < j ==> part_views(b@)[k] == part_views(a@)[k],
        decreases b.len() - j,
    {
        if !component_eq(&a[j], &b[j]) {
            assert(!path_starts_with(path@, base@)) by {
                let pb = part_views(b@);
                let pa = part_views(a@);
                assert(pb[j as int] == b@[j as int]@);
                assert(pa[j as int] == a@[j as int]@);
                if pb.is_prefix_of(pa) {
                    assert(pb[j as int] == pa.subrange(0, pb.len() as int)[j as int]);
                }
            }
            return false;
        }
        j += 1;
    }
    assert(part_views(b@) =~= part_views(a@).subrange(0, b.len() as int));
    true
}

/// Whether a name ends with `.app`.
fn chars_end_with_app(s: &Vec<char>) -> (r: bool)
    ensures
        r == ends_with_app(s@),
{
    let n = s.len();
    if n < 4 {
        return false;
    }
    let r = s[n - 4] == '.' && s[n - 3] == 'a' && s[n - 2] == 'p' && s[n - 1] == 'p';
    if r {
        assert(s@.subrange(n - 4, n as int) =~= seq!['.', 'a', 'p', 'p']);
    } else {
        assert(s@.subrange(n - 4, n as int) != seq!['.', 'a', 'p', 'p']) by {
            if s@.subrange(n - 4, n as int) == seq!['.', 'a', 'p', 'p'] {
                assert(s@.subrange(n - 4, n as int)[0] == s@[n - 4]);
                assert(s@.subrange(n - 4, n as int)[1] == s@[n - 3]);
                assert(s@.subrange(n - 4, n as int)[2] == s@[n - 2]);
                assert(s@.subrange(n - 4, n as int)[3] == s@[n - 1]);
            }
        }
    }
    r
}

fn component_is_bundle(c: &Component) -> (r: bool)
    ensures
        r == is_bundle_part(c@),
{
    match c {
        Component::Normal(s) => chars_end_with_app(s),
        _ => false,
    }
}

/// Whether some component of `path` names an application bundle.
pub fn has_bundle_component(path: &str) -> (r: bool)
    ensures
        r == has_bundle_part(path@),
{
    let cs = components(path);
    let ghost parts = part_views(cs@);
    let mut j: usize = 0;
    while j < cs.len()
        invariant
            parts == part_views(cs@),
            parts == path_parts(path@),
            j <= cs.len(),
            forall|k: int| 0 <= k < j ==> !is_bundle_part(#[trigger] parts[k]),
        decreases cs.len() - j,
    {
        if component_is_bundle(&cs[j]) {
            assert(is_bundle_part(parts[j as int]));
            return true;
        }
        j += 1;
    }
    false
}

/// The number of components of `path` that name an application bundle.
pub fn bundle_component_count(path: &str) -> (r: usize)
    ensures
        r == bundle_part_count(path_parts(path@)),
{
    let cs = components(path);
    let ghost parts = part_views(cs@);
    let mut count: usize = 0;
    let mut j: usize = 0;
    assert(parts.take(0) =~= Seq::<PathPart>::empty());
    while j < cs.len()
        invariant
            parts == part_views(cs@),
            j <= cs.len(),
            parts == path_parts(path@),
            count == bundle_part_count(parts.take(j as int)),
            count <= j,
        decreases cs.len() - j,
    {
        let ghost prev = parts.take(j as int);
        assert(parts.take(j + 1).drop_last() =~= prev);
        assert(parts.take(j + 1).last() == cs@[j as int]@);
        let b = component_is_bundle(&cs[j]);
        assert(bundle_part_count(parts.take(j + 1)) == bundle_part_count(prev) + if b {
            1nat
        } else {
            0nat
        });
        if b {
            count += 1;
        }
        j += 1;
    }
    assert(parts.take(cs.len() as int) =~= parts);
    count
}

/// Whether `path` is absolute.
pub fn path_is_absolute(path: &str) -> (r: bool)
    ensures
        r == is_absolute(path@),
{
    let cs = chars_of(path);
    cs.len() > 0 && cs[0] == '/'
}

} // verus!
