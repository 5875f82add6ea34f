//! The layering rule: a file of one layer may import only from the layers
//! it is allowed to depend on.
use crate::config::LayerMap;
use crate::rules::{findings, FindingView, Rule, Violation};
use crate::syntax::SyntaxTree;
use crate::text::{chars_equal_string, chars_of, copy_chars, ends_with_seq, ends_with_str, push_all, push_str, string_of};
use vstd::prelude::*;

verus! {

/// The pieces of `s` between separators (empty pieces included), as
/// `str::split` yields them.
pub open spec fn pieces(s: Seq<char>, is_sep: spec_fn(char) -> bool) -> Seq<Seq<char>>
    decreases s.len(),
{
    if s.len() == 0 {
        seq![Seq::empty()]
    } else {
        let p = pieces(s.drop_last(), is_sep);
        if is_sep(s.last()) {
            p.push(Seq::empty())
        } else {
            p.update(p.len() - 1, p.last().push(s.last()))
        }
    }
}

/// Path separators: `/` and `.`.
pub open spec fn path_sep() -> spec_fn(char) -> bool {
    |c: char| c == '/' || c == '.'
}

/// Import separators: `.`.
pub open spec fn import_sep() -> spec_fn(char) -> bool {
    |c: char| c == '.'
}

/// The first of `ps` that is a layer of `layers`.
pub open spec fn first_layer(ps: Seq<Seq<char>>, layers: LayerMap) -> Option<Seq<char>>
    decreases ps.len(),
{
    if ps.len() == 0 {
        None
    } else if layers.lookup(ps[0]) is Some {
        Some(ps[0])
    } else {
        first_layer(ps.drop_first(), layers)
    }
}

proof fn lemma_pieces_nonempty(s: Seq<char>, is_sep: spec_fn(char) -> bool)
    ensures
        pieces(s, is_sep).len() >= 1,
    decreases s.len(),
{
    if s.len() > 0 {
        lemma_pieces_nonempty(s.drop_last(), is_sep);
    }
}

proof fn lemma_first_layer_skip(done: Seq<Seq<char>>, rest: Seq<Seq<char>>, layers: LayerMap)
    requires
        forall|k: int| 0 <= k < done.len() ==> layers.lookup(#[trigger] done[k]) is None,
    ensures
        first_layer(done + rest, layers) == first_layer(rest, layers),
    decreases done.len(),
{
    if done.len() > 0 {
        assert((done + rest).drop_first() =~= done.drop_first() + rest);
        assert((done + rest)[0] == done[0]);
        lemma_first_layer_skip(done.drop_first(), rest, layers);
    }
}

proof fn lemma_pieces_split(s: Seq<char>, i: int, sep: spec_fn(char) -> bool)
    requires
        0 <= i < s.len(),
        sep(s[i]),
    ensures
        pieces(s, sep) == pieces(s.subrange(0, i), sep) + pieces(s.subrange(i + 1, s.len() as int), sep),
    decreases s.len(),
{
    let head = pieces(s.subrange(0, i), sep);
    if s.len() == i + 1 {
        assert(s.drop_last() =~= s.subrange(0, i));
        assert(s.subrange(i + 1, s.len() as int) =~= Seq::<char>::empty());
        assert(pieces(s, sep) =~= head + seq![Seq::<char>::empty()]);
    } else {
        let d = s.drop_last();
        lemma_pieces_split(d, i, sep);
        assert(d.subrange(0, i) =~= s.subrange(0, i));
        let tail = s.subrange(i + 1, s.len() as int);
        assert(tail.drop_last() =~= d.subrange(i + 1, d.len() as int));
        assert(tail.last() == s.last());
        lemma_pieces_nonempty(tail.drop_last(), sep);
        let pt = pieces(tail.drop_last(), sep);
        if sep(s.last()) {
            assert(pieces(s, sep) =~= (head + pt).push(Seq::empty()));
            assert(pieces(tail, sep) =~= pt.push(Seq::empty()));
        } else {
            assert(pieces(tail, sep) =~= pt.update(pt.len() - 1, pt.last().push(s.last())));
            assert((head + pt).last() == pt.last());
            assert(pieces(s, sep) =~= (head + pt).update((head + pt).len() - 1, pt.last().push(s.last())));
        }
        assert(pieces(s, sep) =~= head + pieces(tail, sep));
    }
}

/// The first piece of `s` split at `is_sep` that names a layer.
fn layer_in(layers: &LayerMap, s: &[char], path: bool) -> (r: Option<Vec<char>>)
    ensures
        r matches Some(v) ==> first_layer(pieces(s@, if path { path_sep() } else { import_sep() }), *layers) == Some(v@),
        r is None ==> first_layer(pieces(s@, if path { path_sep() } else { import_sep() }), *layers) is None,
{
    let ghost sep = if path { path_sep() } else { import_sep() };
    let ghost mut done: Seq<Seq<char>> = Seq::empty();
    let mut current: Vec<char> = Vec::new();
    let mut i: usize = 0;
    assert(s@.subrange(0, 0) =~= Seq::<char>::empty());
    while i < s.len()
        invariant
            sep == (if path { path_sep() } else { import_sep() }),
            0 <= i <= s@.len(),
            pieces(s@.subrange(0, i as int), sep) == done.push(current@),
            forall|k: int| 0 <= k < done.len() ==> layers.lookup(#[trigger] done[k]) is None,
        decreases s@.len() - i,
    {
        let c = s[i];
        let is_sep = if path { c == '/' || c == '.' } else { c == '.' };
        proof {
            assert(s@.subrange(0, i + 1).drop_last() =~= s@.subrange(0, i as int));
            assert(s@.subrange(0, i + 1).last() == c);
        }
        if is_sep {
            if layers.get(current.as_slice()).is_some() {
                proof {
                    let rest = pieces(s@.subrange(i + 1, s@.len() as int), sep);
                    lemma_pieces_split(s@, i as int, sep);
                    assert(pieces(s@, sep) =~= done + (seq![current@] + rest));
                    lemma_first_layer_skip(done, seq![current@] + rest, *layers);
                    assert((seq![current@] + rest)[0] == current@);
                }
                return Some(current);
            }
            proof {
                done = done.push(current@);
            }
            current = Vec::new();
            proof {
                assert(pieces(s@.subrange(0, i + 1), sep) =~= done.push(current@));
            }
        } else {
            current.push(c);
            proof {
                assert(pieces(s@.subrange(0, i + 1), sep) =~= done.push(current@));
            }
        }
        i = i + 1;
    }
    proof {
        assert(s@.subrange(0, s@.len() as int) =~= s@);
        assert(done.push(current@) =~= done + seq![current@]);
        lemma_first_layer_skip(done, seq![current@], *layers);
        assert(seq![current@][0] == current@);
        assert(seq![current@].drop_first() =~= Seq::<Seq<char>>::empty());
        assert(first_layer(Seq::<Seq<char>>::empty(), *layers) is None);
    }
    if layers.get(current.as_slice()).is_some() {
        Some(current)
    } else {
        None
    }
}

/// The kinds a file's imports are found by: the import node and the child
/// that holds the imported name.
pub open spec fn import_kinds(java: bool) -> (Seq<char>, Seq<char>) {
    if java {
        ("import_declaration"@, "scoped_identifier"@)
    } else {
        ("import_header"@, "identifier"@)
    }
}

/// The finding for import node `c` of a file in layer `source`, if the
/// import reaches into a layer that `source` may not depend on.
pub open spec fn import_finding(
    file: Seq<char>,
    t: &SyntaxTree,
    layers: LayerMap,
    source: Seq<char>,
    allowed: Seq<Seq<char>>,
    c: int,
) -> Seq<FindingView> {
    let import = t.text(c);
    match first_layer(pieces(import, import_sep()), layers) {
        Some(target) => if target != source && !allowed.contains(target) {
            seq![
                (
                    file,
                    (t.nodes[c].start_row + 1) as usize,
                    "layering"@,
                    "Layer violation: Layer '"@ + source + "' is not allowed to import from layer '"@
                        + target + "' (import: "@ + import + ")"@,
                    "error"@,
                    file + ":layering:"@ + source + ":"@ + target,
                ),
            ]
        } else {
            Seq::empty()
        },
        None => Seq::empty(),
    }
}

/// The findings of import node `i` for its name children from the `k`-th on.
pub open spec fn import_children_findings(
    file: Seq<char>,
    t: &SyntaxTree,
    layers: LayerMap,
    source: Seq<char>,
    allowed: Seq<Seq<char>>,
    java: bool,
    i: int,
    k: int,
) -> Seq<FindingView>
    decreases t.nodes[i].children.len() - k,
{
    if k < 0 || k >= t.nodes[i].children.len() {
        Seq::empty()
    } else {
        let c = t.nodes[i].children[k] as int;
        (if t.kind(c) == import_kinds(java).1 {
            import_finding(file, t, layers, source, allowed, c)
        } else {
            Seq::empty()
        }) + import_children_findings(file, t, layers, source, allowed, java, i, k + 1)
    }
}

/// The layering findings of the subtree at node `i`, in document order.
pub open spec fn layer_subtree_findings(
    file: Seq<char>,
    t: &SyntaxTree,
    layers: LayerMap,
    source: Seq<char>,
    allowed: Seq<Seq<char>>,
    java: bool,
    i: int,
) -> Seq<FindingView>
    decreases t.nodes.len() - i, t.nodes[i].children.len() + 1,
{
    if i < 0 || i >= t.nodes.len() {
        Seq::empty()
    } else {
        (if t.kind(i) == import_kinds(java).0 {
            import_children_findings(file, t, layers, source, allowed, java, i, 0)
        } else {
            Seq::empty()
        }) + layer_children_findings(file, t, layers, source, allowed, java, i, 0)
    }
}

/// The layering findings of the subtrees of the children of `i` from the
/// `k`-th on.
pub open spec fn layer_children_findings(
    file: Seq<char>,
    t: &SyntaxTree,
    layers: LayerMap,
    source: Seq<char>,
    allowed: Seq<Seq<char>>,
    java: bool,
    i: int,
    k: int,
) -> Seq<FindingView>
    decreases t.nodes.len() - i, t.nodes[i].children.len() - k,
{
    if i < 0 || i >= t.nodes.len() || k < 0 || k >= t.nodes[i].children.len() {
        Seq::empty()
    } else {
        let c = t.nodes[i].children[k] as int;
        if c <= i || c >= t.nodes.len() {
            layer_children_findings(file, t, layers, source, allowed, java, i, k + 1)
        } else {
            layer_subtree_findings(file, t, layers, source, allowed, java, c) + layer_children_findings(
                file,
                t,
                layers,
                source,
                allowed,
                java,
                i,
                k + 1,
            )
        }
    }
}

/// The layering findings of a file: none unless a piece of its path names a
/// layer and the file is Java or Kotlin; otherwise one finding per import
/// into a layer other than its own that its layer may not depend on.
pub open spec fn layer_findings(file: Seq<char>, t: &SyntaxTree, layers: LayerMap) -> Seq<FindingView> {
    match first_layer(pieces(file, path_sep()), layers) {
        Some(source) => match layers.lookup(source) {
            Some(allowed) => if ends_with_seq(file, ".java"@) {
                layer_subtree_findings(file, t, layers, source, allowed, true, 0)
            } else if ends_with_seq(file, ".kt"@) {
                layer_subtree_findings(file, t, layers, source, allowed, false, 0)
            } else {
                Seq::empty()
            },
            None => Seq::empty(),
        },
        None => Seq::empty(),
    }
}

/// Whether `allowed` holds `name`.
fn allows(allowed: &Vec<String>, name: &[char]) -> (r: bool)
    ensures
        r == allowed@.map_values(|s: String| s@).contains(name@),
{
    let ghost m = allowed@.map_values(|s: String| s@);
    let mut i: usize = 0;
    while i < allowed.len()
        invariant
            m == allowed@.map_values(|s: String| s@),
            0 <= i <= allowed@.len(),
            forall|j: int| 0 <= j < i ==> m[j] != name@,
        decreases allowed@.len() - i,
    {
        if chars_equal_string(name, &allowed[i]) {
            assert(m[i as int] == name@);
            return true;
        }
        i = i + 1;
    }
    proof {
        if m.contains(name@) {
            let j = choose|j: int| 0 <= j < m.len() && m[j] == name@;
        }
    }
    false
}

/// The rule that checks imports against the allowed dependencies of layers.
pub struct LayerRule {
    pub layers: LayerMap,
}

impl LayerRule {
    /// A rule for the given layers.
    pub fn new(layers: LayerMap) -> (r: Self)
        ensures
            r.layers == layers,
    {
        LayerRule { layers }
    }

    /// The layer of a file: the first piece of its path, split at `/` and
    /// `.`, that names a layer.
    pub fn get_layer_for_path(&self, path: &str) -> (r: Option<String>)
        ensures
            r matches Some(v) ==> first_layer(pieces(path@, path_sep()), self.layers) == Some(v@),
            r is None ==> first_layer(pieces(path@, path_sep()), self.layers) is None,
    {
        let p = chars_of(path);
        match layer_in(&self.layers, p.as_slice(), true) {
            Some(v) => Some(string_of(v.as_slice())),
            None => None,
        }
    }

    /// The layer of an import: the first piece of it, split at `.`, that
    /// names a layer.
    pub fn get_layer_for_import(&self, import: &str) -> (r: Option<String>)
        ensures
            r matches Some(v) ==> first_layer(pieces(import@, import_sep()), self.layers) == Some(v@),
            r is None ==> first_layer(pieces(import@, import_sep()), self.layers) is None,
    {
        let p = chars_of(import);
        match layer_in(&self.layers, p.as_slice(), false) {
            Some(v) => Some(string_of(v.as_slice())),
            None => None,
        }
    }

    /// Appends the finding for import node `c`, if it breaks the layering.
    fn check_import(
        &self,
        file_path: &str,
        t: &SyntaxTree,
        source: &[char],
        allowed: &Vec<String>,
        c: usize,
        out: &mut Vec<Violation>,
    )
        requires
            t.wf(),
            c < t.nodes.len(),
        ensures
            findings(final(out)@) == findings(old(out)@) + import_finding(
                file_path@,
                t,
                self.layers,
                source@,
                allowed@.map_values(|s: String| s@),
                c as int,
            ),
    {
        let import = t.text_of(c);
        match layer_in(&self.layers, import, false) {
            Some(target) => {
                if !crate::text::chars_equal(target.as_slice(), source) && !allows(allowed, target.as_slice()) {
                    let mut msg: Vec<char> = Vec::new();
                    push_str(&mut msg, "Layer violation: Layer '");
                    push_all(&mut msg, source);
                    push_str(&mut msg, "' is not allowed to import from layer '");
                    push_all(&mut msg, target.as_slice());
                    push_str(&mut msg, "' (import: ");
                    push_all(&mut msg, import);
                    push_str(&mut msg, ")");
                    let mut fp: Vec<char> = Vec::new();
                    push_str(&mut fp, file_path);
                    push_str(&mut fp, ":layering:");
                    push_all(&mut fp, source);
                    push_str(&mut fp, ":");
                    push_all(&mut fp, target.as_slice());
                    let v = Violation {
                        file: file_path.to_owned(),
                        line: t.nodes[c].start_row + 1,
                        rule: "layering".to_owned(),
                        message: string_of(msg.as_slice()),
                        severity: "error".to_owned(),
                        fingerprint: string_of(fp.as_slice()),
                    };
                    let ghost before = findings(out@);
                    out.push(v);
                    proof {
                        assert(findings(out@) =~= before.push(v@));
                    }
                } else {
                    assert(findings(out@) =~= findings(old(out)@) + Seq::empty());
                }
            },
            None => {
                assert(findings(out@) =~= findings(old(out)@) + Seq::empty());
            },
        }
    }

    /// Appends the layering findings of the subtree at node `i`.
    fn collect(
        &self,
        file_path: &str,
        t: &SyntaxTree,
        source: &[char],
        allowed: &Vec<String>,
        java: bool,
        i: usize,
        out: &mut Vec<Violation>,
    )
        requires
            t.wf(),
            i < t.nodes.len(),
        ensures
            findings(final(out)@) == findings(old(out)@) + layer_subtree_findings(
                file_path@,
                t,
                self.layers,
                source@,
                allowed@.map_values(|s: String| s@),
                java,
                i as int,
            ),
        decreases t.nodes.len() - i, t.nodes[i as int].children.len() + 1,
    {
        let ghost al = allowed@.map_values(|s: String| s@);
        let n = &t.nodes[i];
        let ghost start = findings(out@);
        let is_import = if java {
            t.kind_is(i, "import_declaration")
        } else {
            t.kind_is(i, "import_header")
        };
        if is_import {
            let mut k: usize = 0;
            while k < n.children.len()
                invariant
                    t.wf(),
                    i < t.nodes.len(),
                    n == t.nodes[i as int],
                    al == allowed@.map_values(|s: String| s@),
                    0 <= k <= n.children@.len(),
                    findings(out@) + import_children_findings(file_path@, t, self.layers, source@, al, java, i as int, k as int)
                        == start + import_children_findings(file_path@, t, self.layers, source@, al, java, i as int, 0),
                decreases n.children@.len() - k,
            {
                let c = n.children[k];
                let ghost before = findings(out@);
                let named = if java {
                    t.kind_is(c, "scoped_identifier")
                } else {
                    t.kind_is(c, "identifier")
                };
                if named {
                    self.check_import(file_path, t, source, allowed, c, out);
                }
                proof {
                    assert(findings(out@) + import_children_findings(file_path@, t, self.layers, source@, al, java, i as int, k + 1)
                        =~= before + import_children_findings(file_path@, t, self.layers, source@, al, java, i as int, k as int));
                }
                k = k + 1;
            }
            proof {
                assert(findings(out@) =~= start + import_children_findings(file_path@, t, self.layers, source@, al, java, i as int, 0));
            }
        } else {
            assert(findings(out@) =~= start + Seq::empty());
        }
        let ghost own = findings(out@);
        let mut k: usize = 0;
        while k < n.children.len()
            invariant
                t.wf(),
                i < t.nodes.len(),
                n == t.nodes[i as int],
                al == allowed@.map_values(|s: String| s@),
                0 <= k <= n.children@.len(),
                findings(out@) + layer_children_findings(file_path@, t, self.layers, source@, al, java, i as int, k as int)
                    == own + layer_children_findings(file_path@, t, self.layers, source@, al, java, i as int, 0),
            decreases n.children@.len() - k,
        {
            let c = n.children[k];
            let ghost before = findings(out@);
            self.collect(file_path, t, source, allowed, java, c, out);
            proof {
                assert(findings(out@) + layer_children_findings(file_path@, t, self.layers, source@, al, java, i as int, k + 1)
                    =~= before + layer_children_findings(file_path@, t, self.layers, source@, al, java, i as int, k as int));
            }
            k = k + 1;
        }
        proof {
            assert(findings(out@) =~= own + layer_children_findings(file_path@, t, self.layers, source@, al, java, i as int, 0));
        }
    }
}

impl Rule for LayerRule {
    fn check(&self, file_path: &str, code: &str, tree: &SyntaxTree) -> (r: Vec<Violation>)
        ensures
            findings(r@) == layer_findings(file_path@, tree, self.layers),
    {
        let path = chars_of(file_path);
        let source = match layer_in(&self.layers, path.as_slice(), true) {
            Some(l) => l,
            None => return Vec::new(),
        };
        let allowed = match self.layers.get(source.as_slice()) {
            Some(deps) => deps,
            None => return Vec::new(),
        };
        let java = ends_with_str(path.as_slice(), ".java");
        if !java && !ends_with_str(path.as_slice(), ".kt") {
            return Vec::new();
        }
        let mut out: Vec<Violation> = Vec::new();
        self.collect(file_path, tree, source.as_slice(), allowed, java, 0, &mut out);
        assert(findings(out@) =~= layer_findings(file_path@, tree, self.layers));
        out
    }
}

/// The separator that is exactly `c`.
pub open spec fn char_is(c: char) -> spec_fn(char) -> bool {
    |x: char| x == c
}

/// The pieces of `s` between occurrences of `sep`, as `str::split` yields them.
pub fn split_at_char(s: &[char], sep: char) -> (r: Vec<Vec<char>>)
    ensures
        r@.map_values(|v: Vec<char>| v@) == pieces(s@, char_is(sep)),
{
    let mut out: Vec<Vec<char>> = Vec::new();
    let mut current: Vec<char> = Vec::new();
    let mut i: usize = 0;
    assert(s@.subrange(0, 0) =~= Seq::<char>::empty());
    assert(pieces(Seq::<char>::empty(), char_is(sep)) == seq![Seq::<char>::empty()]);
    while i < s.len()
        invariant
            0 <= i <= s@.len(),
            out@.map_values(|v: Vec<char>| v@).push(current@) == pieces(s@.subrange(0, i as int), char_is(sep)),
        decreases s@.len() - i,
    {
        let c = s[i];
        proof {
            assert(s@.subrange(0, i + 1).drop_last() =~= s@.subrange(0, i as int));
            assert(s@.subrange(0, i + 1).last() == c);
            lemma_pieces_nonempty(s@.subrange(0, i as int), char_is(sep));
        }
        let ghost before = out@.map_values(|v: Vec<char>| v@);
        if c == sep {
            let done = current;
            out.push(done);
            current = Vec::new();
            proof {
                assert(out@.map_values(|v: Vec<char>| v@) =~= before.push(done@));
                assert(out@.map_values(|v: Vec<char>| v@).push(current@) =~= pieces(s@.subrange(0, i + 1), char_is(sep)));
            }
        } else {
            current.push(c);
            proof {
                assert(out@.map_values(|v: Vec<char>| v@).push(current@) =~= pieces(s@.subrange(0, i + 1), char_is(sep)));
            }
        }
        i = i + 1;
    }
    let ghost before = out@.map_values(|v: Vec<char>| v@);
    let last = current;
    out.push(last);
    proof {
        assert(out@.map_values(|v: Vec<char>| v@) =~= before.push(last@));
        assert(s@.subrange(0, s@.len() as int) =~= s@);
    }
    out
}

/// The layer `first_layer` finds is a configured layer.
proof fn lemma_first_layer_is_layer(ps: Seq<Seq<char>>, layers: LayerMap)
    ensures
        first_layer(ps, layers) matches Some(x) ==> layers.lookup(x) is Some,
    decreases ps.len(),
{
    if ps.len() > 0 && layers.lookup(ps[0]) is None {
        lemma_first_layer_is_layer(ps.drop_first(), layers);
    }
}

/// Finding `f` is the report of a dependency from layer `source` on a
/// configured layer that is neither `source` nor among `allowed`.
pub open spec fn names_forbidden_layer(
    f: FindingView,
    file: Seq<char>,
    layers: LayerMap,
    source: Seq<char>,
    allowed: Seq<Seq<char>>,
) -> bool {
    exists|target: Seq<char>|
        #![trigger layers.lookup(target)]
        layers.lookup(target) is Some && target != source && !allowed.contains(target) && f.5 == file
            + ":layering:"@ + source + ":"@ + target
}

/// Every element of `v` reports a forbidden dependency.
pub open spec fn all_forbidden(
    v: Seq<FindingView>,
    file: Seq<char>,
    layers: LayerMap,
    source: Seq<char>,
    allowed: Seq<Seq<char>>,
) -> bool {
    forall|i: int| 0 <= i < v.len() ==> names_forbidden_layer(#[trigger] v[i], file, layers, source, allowed)
}

proof fn lemma_all_forbidden_concat(
    a: Seq<FindingView>,
    b: Seq<FindingView>,
    file: Seq<char>,
    layers: LayerMap,
    source: Seq<char>,
    allowed: Seq<Seq<char>>,
)
    requires
        all_forbidden(a, file, layers, source, allowed),
        all_forbidden(b, file, layers, source, allowed),
    ensures
        all_forbidden(a + b, file, layers, source, allowed),
{
    assert forall|i: int| 0 <= i < (a + b).len() implies names_forbidden_layer(#[trigger] (a + b)[i], file, layers, source, allowed) by {
        if i < a.len() {
            assert((a + b)[i] == a[i]);
        } else {
            assert((a + b)[i] == b[i - a.len()]);
        }
    }
}

proof fn lemma_import_children_forbidden(
    file: Seq<char>,
    t: &SyntaxTree,
    layers: LayerMap,
    source: Seq<char>,
    allowed: Seq<Seq<char>>,
    java: bool,
    i: int,
    k: int,
)
    ensures
        all_forbidden(import_children_findings(file, t, layers, source, allowed, java, i, k), file, layers, source, allowed),
    decreases t.nodes[i].children.len() - k,
{
    if !(k < 0 || k >= t.nodes[i].children.len()) {
        let c = t.nodes[i].children[k] as int;
        lemma_import_children_forbidden(file, t, layers, source, allowed, java, i, k + 1);
        let own = if t.kind(c) == import_kinds(java).1 {
            import_finding(file, t, layers, source, allowed, c)
        } else {
            Seq::empty()
        };
        lemma_first_layer_is_layer(pieces(t.text(c), import_sep()), layers);
        assert(all_forbidden(own, file, layers, source, allowed)) by {
            if own.len() > 0 {
                let target = first_layer(pieces(t.text(c), import_sep()), layers)->0;
                assert(layers.lookup(target) is Some);
                assert(names_forbidden_layer(own[0], file, layers, source, allowed));
            }
        }
        lemma_all_forbidden_concat(
            own,
            import_children_findings(file, t, layers, source, allowed, java, i, k + 1),
            file,
            layers,
            source,
            allowed,
        );
    }
}

proof fn lemma_subtree_forbidden(
    file: Seq<char>,
    t: &SyntaxTree,
    layers: LayerMap,
    source: Seq<char>,
    allowed: Seq<Seq<char>>,
    java: bool,
    i: int,
)
    ensures
        all_forbidden(layer_subtree_findings(file, t, layers, source, allowed, java, i), file, layers, source, allowed),
    decreases t.nodes.len() - i, t.nodes[i].children.len() + 1,
{
    if !(i < 0 || i >= t.nodes.len()) {
        lemma_import_children_forbidden(file, t, layers, source, allowed, java, i, 0);
        lemma_children_forbidden(file, t, layers, source, allowed, java, i, 0);
        let own = if t.kind(i) == import_kinds(java).0 {
            import_children_findings(file, t, layers, source, allowed, java, i, 0)
        } else {
            Seq::empty()
        };
        lemma_all_forbidden_concat(
            own,
            layer_children_findings(file, t, layers, source, allowed, java, i, 0),
            file,
            layers,
            source,
            allowed,
        );
    }
}

proof fn lemma_children_forbidden(
    file: Seq<char>,
    t: &SyntaxTree,
    layers: LayerMap,
    source: Seq<char>,
    allowed: Seq<Seq<char>>,
    java: bool,
    i: int,
    k: int,
)
    ensures
        all_forbidden(layer_children_findings(file, t, layers, source, allowed, java, i, k), file, layers, source, allowed),
    decreases t.nodes.len() - i, t.nodes[i].children.len() - k,
{
    if !(i < 0 || i >= t.nodes.len() || k < 0 || k >= t.nodes[i].children.len()) {
        let c = t.nodes[i].children[k] as int;
        lemma_children_forbidden(file, t, layers, source, allowed, java, i, k + 1);
        if !(c <= i || c >= t.nodes.len()) {
            lemma_subtree_forbidden(file, t, layers, source, allowed, java, c);
            lemma_all_forbidden_concat(
                layer_subtree_findings(file, t, layers, source, allowed, java, c),
                layer_children_findings(file, t, layers, source, allowed, java, i, k + 1),
                file,
                layers,
                source,
                allowed,
            );
        }
    }
}

/// Dependencies only go where the configuration lets them: every layering
/// finding of a file lies in a layer `source`, and names in its
/// fingerprint `source` and a configured layer that is neither `source`
/// nor among the layers `source` may import from.  A file in no layer has
/// no layering findings.
pub proof fn lemma_only_forbidden_dependencies_reported(file: Seq<char>, t: &SyntaxTree, layers: LayerMap)
    ensures
        match first_layer(pieces(file, path_sep()), layers) {
            Some(source) => match layers.lookup(source) {
                Some(allowed) => all_forbidden(layer_findings(file, t, layers), file, layers, source, allowed),
                None => layer_findings(file, t, layers).len() == 0,
            },
            None => layer_findings(file, t, layers).len() == 0,
        },
{
    if let Some(source) = first_layer(pieces(file, path_sep()), layers) {
        if let Some(allowed) = layers.lookup(source) {
            lemma_subtree_forbidden(file, t, layers, source, allowed, true, 0);
            lemma_subtree_forbidden(file, t, layers, source, allowed, false, 0);
        }
    }
}

/// The finding for an import `c` of a file in layer `source` that reaches
/// into layer `target`.
pub open spec fn forbidden_import_finding(
    file: Seq<char>,
    t: &SyntaxTree,
    source: Seq<char>,
    target: Seq<char>,
    c: int,
) -> FindingView {
    (
        file,
        (t.nodes[c].start_row + 1) as usize,
        "layering"@,
        "Layer violation: Layer '"@ + source + "' is not allowed to import from layer '"@ + target + "' (import: "@
            + t.text(c) + ")"@,
        "error"@,
        file + ":layering:"@ + source + ":"@ + target,
    )
}

/// `path` leads from the root through child links to its last node.
pub open spec fn root_path(t: &SyntaxTree, path: Seq<int>) -> bool {
    &&& path.len() >= 1
    &&& path[0] == 0
    &&& forall|m: int| 0 <= m < path.len() ==> 0 <= #[trigger] path[m] < t.nodes.len()
    &&& forall|m: int|
        0 <= m < path.len() - 1 ==> t.nodes[path[m]].children@.contains(#[trigger] path[m + 1] as usize)
}

proof fn lemma_import_child_reported(
    file: Seq<char>,
    t: &SyntaxTree,
    layers: LayerMap,
    source: Seq<char>,
    allowed: Seq<Seq<char>>,
    i: int,
    j: int,
    k: int,
    target: Seq<char>,
)
    requires
        0 <= i < t.nodes.len(),
        0 <= j <= k < t.nodes[i].children.len(),
        t.kind(t.nodes[i].children[k] as int) == "identifier"@,
        first_layer(pieces(t.text(t.nodes[i].children[k] as int), import_sep()), layers) == Some(target),
        target != source,
        !allowed.contains(target),
    ensures
        import_children_findings(file, t, layers, source, allowed, false, i, j).contains(
            forbidden_import_finding(file, t, source, target, t.nodes[i].children[k] as int),
        ),
    decreases k - j,
{
    let c = t.nodes[i].children[j] as int;
    let own = if t.kind(c) == import_kinds(false).1 {
        import_finding(file, t, layers, source, allowed, c)
    } else {
        Seq::empty()
    };
    let rest = import_children_findings(file, t, layers, source, allowed, false, i, j + 1);
    let x = forbidden_import_finding(file, t, source, target, t.nodes[i].children[k] as int);
    assert(import_children_findings(file, t, layers, source, allowed, false, i, j) == own + rest);
    if j == k {
        assert(own == seq![x]);
        assert((own + rest)[0] == x);
    } else {
        lemma_import_child_reported(file, t, layers, source, allowed, i, j + 1, k, target);
        let q = choose|q: int| 0 <= q < rest.len() && rest[q] == x;
        assert((own + rest)[own.len() + q] == x);
    }
}

proof fn lemma_child_findings_contained(
    file: Seq<char>,
    t: &SyntaxTree,
    layers: LayerMap,
    source: Seq<char>,
    allowed: Seq<Seq<char>>,
    p: int,
    j: int,
    k: int,
    x: FindingView,
)
    requires
        t.wf(),
        0 <= p < t.nodes.len(),
        0 <= j <= k < t.nodes[p].children.len(),
        layer_subtree_findings(file, t, layers, source, allowed, false, t.nodes[p].children[k] as int).contains(x),
    ensures
        layer_children_findings(file, t, layers, source, allowed, false, p, j).contains(x),
    decreases k - j,
{
    let c = t.nodes[p].children[j] as int;
    assert(p < c < t.nodes.len());
    let rest = layer_children_findings(file, t, layers, source, allowed, false, p, j + 1);
    let own = layer_subtree_findings(file, t, layers, source, allowed, false, c);
    assert(layer_children_findings(file, t, layers, source, allowed, false, p, j) == own + rest);
    if j == k {
        let q = choose|q: int| 0 <= q < own.len() && own[q] == x;
        assert((own + rest)[q] == x);
    } else {
        lemma_child_findings_contained(file, t, layers, source, allowed, p, j + 1, k, x);
        let q = choose|q: int| 0 <= q < rest.len() && rest[q] == x;
        assert((own + rest)[own.len() + q] == x);
    }
}

proof fn lemma_subtree_contains_child(
    file: Seq<char>,
    t: &SyntaxTree,
    layers: LayerMap,
    source: Seq<char>,
    allowed: Seq<Seq<char>>,
    p: int,
    c: int,
    x: FindingView,
)
    requires
        t.wf(),
        0 <= p < t.nodes.len(),
        t.nodes[p].children@.contains(c as usize),
        layer_subtree_findings(file, t, layers, source, allowed, false, c).contains(x),
    ensures
        layer_subtree_findings(file, t, layers, source, allowed, false, p).contains(x),
{
    let k = choose|k: int| 0 <= k < t.nodes[p].children@.len() && t.nodes[p].children@[k] == c as usize;
    assert(t.nodes[p].children[k] as int == c);
    lemma_child_findings_contained(file, t, layers, source, allowed, p, 0, k, x);
    let own = if t.kind(p) == import_kinds(false).0 {
        import_children_findings(file, t, layers, source, allowed, false, p, 0)
    } else {
        Seq::empty()
    };
    let rest = layer_children_findings(file, t, layers, source, allowed, false, p, 0);
    assert(layer_subtree_findings(file, t, layers, source, allowed, false, p) == own + rest);
    let q = choose|q: int| 0 <= q < rest.len() && rest[q] == x;
    assert((own + rest)[own.len() + q] == x);
}

proof fn lemma_path_contains(
    file: Seq<char>,
    t: &SyntaxTree,
    layers: LayerMap,
    source: Seq<char>,
    allowed: Seq<Seq<char>>,
    path: Seq<int>,
    m: int,
    x: FindingView,
)
    requires
        t.wf(),
        root_path(t, path),
        0 <= m < path.len(),
        layer_subtree_findings(file, t, layers, source, allowed, false, path.last()).contains(x),
    ensures
        layer_subtree_findings(file, t, layers, source, allowed, false, path[m]).contains(x),
    decreases path.len() - m,
{
    if m < path.len() - 1 {
        lemma_path_contains(file, t, layers, source, allowed, path, m + 1, x);
        assert(t.nodes[path[m]].children@.contains(path[m + 1] as usize));
        assert(0 <= path[m] < t.nodes.len() && 0 <= path[m + 1] < t.nodes.len());
        lemma_subtree_contains_child(file, t, layers, source, allowed, path[m], path[m + 1], x);
    }
}

/// Every forbidden Kotlin import is reported: in a `.kt` file whose path
/// lies in layer `source`, for every `import_header` node reached from the
/// root and every `identifier` child of it whose first layer piece is a
/// configured layer `target` other than `source` and not among the layers
/// `source` may import from, the layering findings hold the finding for
/// that import, on its line, with fingerprint `file:layering:source:target`.
pub proof fn lemma_forbidden_kotlin_imports_reported(
    file: Seq<char>,
    t: &SyntaxTree,
    layers: LayerMap,
    path: Seq<int>,
    k: int,
    target: Seq<char>,
)
    requires
        t.wf(),
        ends_with_seq(file, ".kt"@),
        root_path(t, path),
        t.kind(path.last()) == "import_header"@,
        0 <= k < t.nodes[path.last()].children.len(),
        t.kind(t.nodes[path.last()].children[k] as int) == "identifier"@,
        first_layer(pieces(t.text(t.nodes[path.last()].children[k] as int), import_sep()), layers) == Some(target),
        first_layer(pieces(file, path_sep()), layers) is Some,
        target != first_layer(pieces(file, path_sep()), layers)->0,
        !(layers.lookup(first_layer(pieces(file, path_sep()), layers)->0)->0).contains(target),
    ensures
        layer_findings(file, t, layers).contains(
            forbidden_import_finding(
                file,
                t,
                first_layer(pieces(file, path_sep()), layers)->0,
                target,
                t.nodes[path.last()].children[k] as int,
            ),
        ),
{
    reveal_strlit(".kt");
    reveal_strlit(".java");
    let source = first_layer(pieces(file, path_sep()), layers)->0;
    lemma_first_layer_is_layer(pieces(file, path_sep()), layers);
    let allowed = layers.lookup(source)->0;
    let i = path.last();
    assert(0 <= i < t.nodes.len());
    let x = forbidden_import_finding(file, t, source, target, t.nodes[i].children[k] as int);
    lemma_import_child_reported(file, t, layers, source, allowed, i, 0, k, target);
    let own = import_children_findings(file, t, layers, source, allowed, false, i, 0);
    let rest = layer_children_findings(file, t, layers, source, allowed, false, i, 0);
    assert(layer_subtree_findings(file, t, layers, source, allowed, false, i) == own + rest);
    let q = choose|q: int| 0 <= q < own.len() && own[q] == x;
    assert((own + rest)[q] == x);
    lemma_path_contains(file, t, layers, source, allowed, path, 0, x);
    assert(!ends_with_seq(file, ".java"@)) by {
        if ends_with_seq(file, ".java"@) {
            assert(file.subrange(file.len() - 3, file.len() as int)[2] == file[file.len() - 1]);
            assert(file.subrange(file.len() - 5, file.len() as int)[4] == file[file.len() - 1]);
            assert(file[file.len() - 1] == ".kt"@[2]);
            assert(file[file.len() - 1] == ".java"@[4]);
        }
    }
}

} // verus!
