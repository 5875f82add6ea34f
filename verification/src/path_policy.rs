//! Paths as component lists (Unix separators, as `std::path::Path` reads
//! them) and the policy of directories that analysis never enters.
use crate::text::{chars_are, chars_of, lower, lower_is};
use vstd::prelude::*;

verus! {

/// One component of a path, as `std::path::Component` distinguishes them.
#[derive(Debug, Clone, PartialEq, Eq)]
pub enum PathComponent {
    /// The leading `/` of an absolute path.
    Root,
    /// A leading `.`.
    Current,
    /// `..`.
    Parent,
    /// Any other name.
    Normal(Vec<char>),
}

/// The ghost form of a component.
pub enum Comp {
    Root,
    Current,
    Parent,
    Normal(Seq<char>),
}

impl PathComponent {
    pub open spec fn model(&self) -> Comp {
        match self {
            PathComponent::Root => Comp::Root,
            PathComponent::Current => Comp::Current,
            PathComponent::Parent => Comp::Parent,
            PathComponent::Normal(n) => Comp::Normal(n@),
        }
    }
}

/// The ghost forms of `v`.
pub open spec fn models(v: Seq<PathComponent>) -> Seq<Comp> {
    v.map_values(|c: PathComponent| c.model())
}

/// `path` split at every `/` (an empty path is one empty segment).
pub open spec fn segments(path: Seq<char>) -> Seq<Seq<char>>
    decreases path.len(),
{
    if path.len() == 0 {
        seq![Seq::<char>::empty()]
    } else {
        let init = segments(path.drop_last());
        if path.last() == '/' {
            init.push(Seq::<char>::empty())
        } else {
            init.update(init.len() - 1, init.last().push(path.last()))
        }
    }
}

/// The component that a non-empty segment other than `.` stands for.
pub open spec fn segment_component(segment: Seq<char>) -> Comp {
    if segment == ".."@ {
        Comp::Parent
    } else {
        Comp::Normal(segment)
    }
}

/// The components that segments `segs[from..]` contribute: empty and `.`
/// segments are dropped.
pub open spec fn inner_components(segs: Seq<Seq<char>>, from: int) -> Seq<Comp>
    decreases segs.len() - from,
{
    if from >= segs.len() || from < 0 {
        Seq::empty()
    } else {
        let rest = inner_components(segs, from + 1);
        if segs[from].len() == 0 || segs[from] == "."@ {
            rest
        } else {
            seq![segment_component(segs[from])] + rest
        }
    }
}

/// The components of `path`, as `Path::components` documents them: a
/// leading `/` is the root, a leading `.` is kept, other `.` segments,
/// empty segments and trailing separators are normalised away.
pub open spec fn components(path: Seq<char>) -> Seq<Comp> {
    let segs = segments(path);
    if path.len() > 0 && path[0] == '/' {
        seq![Comp::Root] + inner_components(segs, 1)
    } else if segs[0] == "."@ {
        seq![Comp::Current] + inner_components(segs, 1)
    } else {
        inner_components(segs, 0)
    }
}

proof fn lemma_segments_nonempty(path: Seq<char>)
    ensures
        segments(path).len() >= 1,
    decreases path.len(),
{
    if path.len() > 0 {
        lemma_segments_nonempty(path.drop_last());
    }
}

/// The segments of `path`.
fn split_segments(path: &[char]) -> (r: Vec<Vec<char>>)
    ensures
        r@.len() >= 1,
        r@.map_values(|s: Vec<char>| s@) == segments(path@),
{
    let mut r: Vec<Vec<char>> = Vec::new();
    r.push(Vec::new());
    let mut i: usize = 0;
    assert(path@.subrange(0, 0) =~= Seq::<char>::empty());
    assert(r@.map_values(|s: Vec<char>| s@) =~= segments(Seq::<char>::empty()));
    while i < path.len()
        invariant
            0 <= i <= path@.len(),
            r@.len() >= 1,
            r@.map_values(|s: Vec<char>| s@) == segments(path@.subrange(0, i as int)),
        decreases path@.len() - i,
    {
        let c = path[i];
        let ghost prefix = path@.subrange(0, i as int);
        assert(path@.subrange(0, i + 1).drop_last() =~= prefix);
        if c == '/' {
            r.push(Vec::new());
            assert(r@.map_values(|s: Vec<char>| s@) =~= segments(prefix).push(Seq::<char>::empty()));
        } else {
            let last = r.len() - 1;
            let ghost before = r@;
            r[last].push(c);
            assert(r@.map_values(|s: Vec<char>| s@) =~= segments(prefix).update(
                segments(prefix).len() - 1,
                segments(prefix).last().push(c),
            )) by {
                assert(before.map_values(|s: Vec<char>| s@) == segments(prefix));
                assert forall|k: int| 0 <= k < r@.len() implies r@[k]@ == segments(prefix).update(
                    segments(prefix).len() - 1,
                    segments(prefix).last().push(c),
                )[k] by {
                    if k != last {
                        assert(r@[k] == before[k]);
                        assert(before.map_values(|s: Vec<char>| s@)[k] == before[k]@);
                    } else {
                        assert(before.map_values(|s: Vec<char>| s@)[k] == before[k]@);
                    }
                }
            }
        }
        i = i + 1;
    }
    assert(path@.subrange(0, path@.len() as int) =~= path@);
    r
}

/// The components of `path` (see [`components`]).
pub fn path_components(path: &str) -> (r: Vec<PathComponent>)
    ensures
        models(r@) == components(path@),
{
    let chars = chars_of(path);
    let segs = split_segments(chars.as_slice());
    let ghost gsegs = segments(path@);
    assert(segs@.map_values(|s: Vec<char>| s@) == gsegs);
    assert(segs@.len() == gsegs.len());
    let mut r: Vec<PathComponent> = Vec::new();
    let absolute = chars.len() > 0 && chars[0] == '/';
    let first_current = !absolute && chars_are(segs[0].as_slice(), ".");
    assert(segs@[0]@ == gsegs[0]);
    let from: usize = if absolute {
        r.push(PathComponent::Root);
        1
    } else if first_current {
        r.push(PathComponent::Current);
        1
    } else {
        0
    };
    let ghost head = models(r@);
    let mut k: usize = segs.len();
    let mut tail: Vec<PathComponent> = Vec::new();
    assert(models(tail@) =~= inner_components(gsegs, k as int));
    while k > from
        invariant
            from <= k <= segs@.len(),
            segs@.len() == gsegs.len(),
            segs@.map_values(|s: Vec<char>| s@) == gsegs,
            models(tail@) == inner_components(gsegs, k as int),
        decreases k,
    {
        k = k - 1;
        let seg = &segs[k];
        assert(seg@ == gsegs[k as int]);
        if seg.len() == 0 || chars_are(seg.as_slice(), ".") {
        } else {
            let comp = if chars_are(seg.as_slice(), "..") {
                PathComponent::Parent
            } else {
                PathComponent::Normal(crate::text::copy_chars(seg.as_slice()))
            };
            let ghost old_tail = tail@;
            tail.insert(0, comp);
            assert(models(tail@) =~= seq![segment_component(gsegs[k as int])] + models(old_tail));
        }
    }
    let ghost r0 = r@;
    let mut j: usize = 0;
    while j < tail.len()
        invariant
            0 <= j <= tail@.len(),
            models(r@) == models(r0) + models(tail@.subrange(0, j as int)),
        decreases tail@.len() - j,
    {
        let ghost before = r@;
        let c = copy_component(&tail[j]);
        r.push(c);
        assert(models(r@) =~= models(before).push(c.model()));
        assert(models(tail@.subrange(0, j + 1)) =~= models(tail@.subrange(0, j as int)).push(tail@[j as int].model()));
        assert(models(r@) =~= models(r0) + models(tail@.subrange(0, j + 1)));
        j = j + 1;
    }
    assert(tail@.subrange(0, tail@.len() as int) =~= tail@);
    r
}

/// `root` is a component-wise prefix of `path`.
pub open spec fn is_prefix(root: Seq<Comp>, path: Seq<Comp>) -> bool {
    root.len() <= path.len() && path.subrange(0, root.len() as int) == root
}

/// The components of `path` below `root`, when `root` is a prefix of it
/// (as `Path::strip_prefix` documents).
pub open spec fn strip_prefix(path: Seq<Comp>, root: Seq<Comp>) -> Option<Seq<Comp>> {
    if is_prefix(root, path) {
        Some(path.subrange(root.len() as int, path.len() as int))
    } else {
        None
    }
}

/// A copy of `c`.
pub fn copy_component(c: &PathComponent) -> (r: PathComponent)
    ensures
        r.model() == c.model(),
{
    match c {
        PathComponent::Root => PathComponent::Root,
        PathComponent::Current => PathComponent::Current,
        PathComponent::Parent => PathComponent::Parent,
        PathComponent::Normal(n) => PathComponent::Normal(crate::text::copy_chars(n.as_slice())),
    }
}

fn same_component(a: &PathComponent, b: &PathComponent) -> (r: bool)
    ensures
        r == (a.model() == b.model()),
{
    match (a, b) {
        (PathComponent::Root, PathComponent::Root) => true,
        (PathComponent::Current, PathComponent::Current) => true,
        (PathComponent::Parent, PathComponent::Parent) => true,
        (PathComponent::Normal(x), PathComponent::Normal(y)) => crate::text::chars_equal(
            x.as_slice(),
            y.as_slice(),
        ),
        _ => false,
    }
}

/// The components of `path` below `root`, if `root` is a prefix of `path`.
pub fn strip_components(path: &Vec<PathComponent>, root: &Vec<PathComponent>) -> (r: Option<
    Vec<PathComponent>,
>)
    ensures
        r matches Some(rest) ==> strip_prefix(models(path@), models(root@)) == Some(models(rest@)),
        r is None ==> strip_prefix(models(path@), models(root@)) is None,
{
    if root.len() > path.len() {
        return None;
    }
    let mut i: usize = 0;
    while i < root.len()
        invariant
            root@.len() <= path@.len(),
            0 <= i <= root@.len(),
            forall|j: int| 0 <= j < i ==> path@[j].model() == root@[j].model(),
        decreases root@.len() - i,
    {
        if !same_component(&path[i], &root[i]) {
            assert(models(path@).subrange(0, root@.len() as int)[i as int] != models(root@)[i as int]);
            return None;
        }
        i = i + 1;
    }
    assert(models(path@).subrange(0, root@.len() as int) =~= models(root@));
    let mut rest: Vec<PathComponent> = Vec::new();
    let mut j: usize = root.len();
    while j < path.len()
        invariant
            root@.len() <= j <= path@.len(),
            models(rest@) == models(path@).subrange(root@.len() as int, j as int),
        decreases path@.len() - j,
    {
        let ghost before = rest@;
        let c = copy_component(&path[j]);
        rest.push(c);
        assert(models(rest@) =~= models(before).push(c.model()));
        assert(models(path@)[j as int] == path@[j as int].model());
        assert(models(rest@) =~= models(path@).subrange(root@.len() as int, j + 1));
        j = j + 1;
    }
    Some(rest)
}

/// Directory names that analysis never enters, matched case-insensitively.
pub open spec fn skipped_name(lowered: Seq<char>) -> bool {
    lowered == ".git"@ || lowered == "target"@ || lowered == "build"@ || lowered == ".gradle"@
        || lowered == "generated"@ || lowered == "out"@ || lowered == "node_modules"@ || lowered
        == "vendor"@
}

/// Whether `name` is a directory that analysis never enters.
pub fn is_skipped_directory(name: &str) -> (r: bool)
    ensures
        r == skipped_name(lower(name@)),
{
    let chars = chars_of(name);
    is_skipped_chars(chars.as_slice())
}

/// Whether `name` is a directory that analysis never enters.
pub fn is_skipped_chars(name: &[char]) -> (r: bool)
    ensures
        r == skipped_name(lower(name@)),
{
    lower_is(name, ".git") || lower_is(name, "target") || lower_is(name, "build") || lower_is(
        name,
        ".gradle",
    ) || lower_is(name, "generated") || lower_is(name, "out") || lower_is(name, "node_modules")
        || lower_is(name, "vendor")
}

/// Some component of `rel` is a skipped directory name.
pub open spec fn any_skipped(rel: Seq<Comp>) -> bool {
    exists|i: int|
        0 <= i < rel.len() && (#[trigger] rel[i] matches Comp::Normal(n) && skipped_name(lower(n)))
}

fn any_skipped_exec(rel: &Vec<PathComponent>) -> (r: bool)
    ensures
        r == any_skipped(models(rel@)),
{
    let mut i: usize = 0;
    while i < rel.len()
        invariant
            0 <= i <= rel@.len(),
            forall|j: int|
                0 <= j < i ==> !(#[trigger] models(rel@)[j] matches Comp::Normal(n) && skipped_name(
                    lower(n),
                )),
        decreases rel@.len() - i,
    {
        match &rel[i] {
            PathComponent::Normal(n) => {
                if is_skipped_chars(n.as_slice()) {
                    assert(models(rel@)[i as int] == Comp::Normal(n@));
                    return true;
                }
            },
            _ => {},
        }
        i = i + 1;
    }
    false
}

/// Whether `path` lies below a skipped directory that is itself below `root`;
/// only components below `root` count, so the root and its ancestors are
/// never excluded.
pub open spec fn skipped_below(path: Seq<char>, root: Seq<char>) -> bool {
    match strip_prefix(components(path), components(root)) {
        Some(rel) => any_skipped(rel),
        None => false,
    }
}

/// Checks only components below `root`; the root and its ancestors are never
/// excluded.  A path that is not below `root` is not excluded.
pub fn has_skipped_component(path: &str, root: &str) -> (r: bool)
    ensures
        r == skipped_below(path@, root@),
{
    let p = path_components(path);
    let q = path_components(root);
    match strip_components(&p, &q) {
        Some(rel) => any_skipped_exec(&rel),
        None => false,
    }
}

/// Exclusions are relative to the project root: the root itself is never
/// excluded, whatever its own name or the names above it.
pub proof fn lemma_root_is_never_excluded(root: Seq<char>)
    ensures
        !skipped_below(root, root),
{
    let cs = components(root);
    assert(cs.subrange(0, cs.len() as int) =~= cs);
    assert(cs.subrange(cs.len() as int, cs.len() as int) =~= Seq::<Comp>::empty());
}

/// An excluded path excludes everything below it: a path whose components
/// extend those of an excluded path is excluded too.
pub proof fn lemma_exclusion_covers_descendants(path: Seq<char>, root: Seq<char>, deeper: Seq<char>)
    requires
        skipped_below(path, root),
        is_prefix(components(path), components(deeper)),
    ensures
        skipped_below(deeper, root),
{
    let p = components(path);
    let q = components(root);
    let d = components(deeper);
    let rel = p.subrange(q.len() as int, p.len() as int);
    let i = choose|i: int|
        0 <= i < rel.len() && (#[trigger] rel[i] matches Comp::Normal(n) && skipped_name(lower(n)));
    assert forall|j: int| 0 <= j < q.len() implies d[j] == q[j] by {
        assert(d.subrange(0, p.len() as int)[j] == p[j]);
        assert(p.subrange(0, q.len() as int)[j] == q[j]);
    }
    assert(d.subrange(0, q.len() as int) =~= q);
    let rel2 = d.subrange(q.len() as int, d.len() as int);
    assert(rel2[i] == d[q.len() + i]);
    assert(d.subrange(0, p.len() as int)[q.len() + i] == p[q.len() + i]);
    assert(rel2[i] == rel[i]);
}

/// As [`has_skipped_component`], falling back to the resolved forms of the
/// root and the path (as `Path::canonicalize` returns them) when `path` is not
/// lexically below `root`.
pub fn has_skipped_component_resolving(
    path: &str,
    root: &str,
    resolved_root: Option<&str>,
    resolved_path: Option<&str>,
) -> (r: bool)
    ensures
        r == match strip_prefix(components(path@), components(root@)) {
            Some(rel) => any_skipped(rel),
            None => match (resolved_root, resolved_path) {
                (Some(rr), Some(rp)) => skipped_below(rp@, rr@),
                _ => false,
            },
        },
{
    let p = path_components(path);
    let q = path_components(root);
    match strip_components(&p, &q) {
        Some(rel) => any_skipped_exec(&rel),
        None => match (resolved_root, resolved_path) {
            (Some(rr), Some(rp)) => has_skipped_component(rp, rr),
            _ => false,
        },
    }
}

} // verus!
