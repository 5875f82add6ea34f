//! The god-class rule: a class with too many methods or too many lines.
use crate::config::GodClassConfig;
use crate::rules::{findings, FindingView, Rule, Violation};
use crate::syntax::SyntaxTree;
use crate::text::{decimal, decimal_chars, ends_with_seq, ends_with_str, push_all, push_str, string_of};
use vstd::prelude::*;

verus! {

/// Node `c` names a class: in Java the child under field `name` that is an
/// `identifier`, in Kotlin any `type_identifier` child.
pub open spec fn names_class(t: &SyntaxTree, c: int, java: bool) -> bool {
    if java {
        t.field_named(c, "name"@) && t.kind(c) == "identifier"@
    } else {
        t.kind(c) == "type_identifier"@
    }
}

/// Node `c` is a class's body: in Java the child under field `body`, in
/// Kotlin a `class_body` child.
pub open spec fn is_body(t: &SyntaxTree, c: int, java: bool) -> bool {
    if java {
        t.field_named(c, "body"@)
    } else {
        t.kind(c) == "class_body"@
    }
}

/// Node `c` declares a method: `method_declaration` in Java,
/// `function_declaration` in Kotlin.
pub open spec fn is_method(t: &SyntaxTree, c: int, java: bool) -> bool {
    if java {
        t.kind(c) == "method_declaration"@
    } else {
        t.kind(c) == "function_declaration"@
    }
}

/// The first body among the children of `i` from the `k`-th on.
pub open spec fn body_from(t: &SyntaxTree, i: int, k: int, java: bool) -> Option<int>
    decreases t.nodes[i].children.len() - k,
{
    if k < 0 || k >= t.nodes[i].children.len() {
        None
    } else if is_body(t, t.nodes[i].children[k] as int, java) {
        Some(t.nodes[i].children[k] as int)
    } else {
        body_from(t, i, k + 1, java)
    }
}

/// The number of methods among the children of `b` from the `k`-th on.
pub open spec fn methods_from(t: &SyntaxTree, b: int, k: int, java: bool) -> nat
    decreases t.nodes[b].children.len() - k,
{
    if k < 0 || k >= t.nodes[b].children.len() {
        0
    } else {
        (if is_method(t, t.nodes[b].children[k] as int, java) { 1nat } else { 0nat }) + methods_from(
            t,
            b,
            k + 1,
            java,
        )
    }
}

/// The methods declared directly in the body of class `i` (none without a
/// body).
pub open spec fn method_count(t: &SyntaxTree, i: int, java: bool) -> nat {
    match body_from(t, i, 0, java) {
        Some(b) => methods_from(t, b, 0, java),
        None => 0,
    }
}

/// The number of lines class `i` spans.
pub open spec fn class_lines(t: &SyntaxTree, i: int) -> int {
    t.nodes[i].end_row - t.nodes[i].start_row + 1
}

/// The findings for class `i` named by node `c`.
pub open spec fn class_findings(
    file: Seq<char>,
    t: &SyntaxTree,
    cfg: GodClassConfig,
    i: int,
    c: int,
    java: bool,
) -> Seq<FindingView> {
    let name = t.text(c);
    let line = (t.nodes[i].start_row + 1) as usize;
    let count = method_count(t, i, java);
    let loc = class_lines(t, i);
    (if count > cfg.max_methods {
        seq![
            (
                file,
                line,
                "god_class"@,
                "Class '"@ + name + "' has "@ + decimal(count) + " methods (max "@ + decimal(
                    cfg.max_methods as nat,
                ) + ")"@,
                "error"@,
                file + ":god_class:"@ + name + ":methods"@,
            ),
        ]
    } else {
        Seq::empty()
    }) + (if loc > cfg.max_loc {
        seq![
            (
                file,
                line,
                "god_class"@,
                "Class '"@ + name + "' spans "@ + decimal(loc as nat) + " lines (max "@ + decimal(
                    cfg.max_loc as nat,
                ) + ")"@,
                "error"@,
                file + ":god_class:"@ + name + ":loc"@,
            ),
        ]
    } else {
        Seq::empty()
    })
}

/// The findings of class node `i` for its naming children from the `k`-th on.
pub open spec fn name_findings(
    file: Seq<char>,
    t: &SyntaxTree,
    cfg: GodClassConfig,
    i: int,
    k: int,
    java: bool,
) -> Seq<FindingView>
    decreases t.nodes[i].children.len() - k,
{
    if k < 0 || k >= t.nodes[i].children.len() {
        Seq::empty()
    } else {
        let c = t.nodes[i].children[k] as int;
        (if names_class(t, c, java) {
            class_findings(file, t, cfg, i, c, java)
        } else {
            Seq::empty()
        }) + name_findings(file, t, cfg, i, k + 1, java)
    }
}

/// The god-class findings of the subtree at node `i`, in document order: a
/// `class_declaration` yields the findings for each of its names, then its
/// children's findings follow.
pub open spec fn subtree_findings(
    file: Seq<char>,
    t: &SyntaxTree,
    cfg: GodClassConfig,
    i: int,
    java: bool,
) -> Seq<FindingView>
    decreases t.nodes.len() - i, t.nodes[i].children.len() + 1,
{
    if i < 0 || i >= t.nodes.len() {
        Seq::empty()
    } else {
        (if t.kind(i) == "class_declaration"@ {
            name_findings(file, t, cfg, i, 0, java)
        } else {
            Seq::empty()
        }) + children_findings(file, t, cfg, i, 0, java)
    }
}

/// The findings of the subtrees of the children of `i` from the `k`-th on.
pub open spec fn children_findings(
    file: Seq<char>,
    t: &SyntaxTree,
    cfg: GodClassConfig,
    i: int,
    k: int,
    java: bool,
) -> Seq<FindingView>
    decreases t.nodes.len() - i, t.nodes[i].children.len() - k,
{
    if i < 0 || i >= t.nodes.len() || k < 0 || k >= t.nodes[i].children.len() {
        Seq::empty()
    } else {
        let c = t.nodes[i].children[k] as int;
        if c <= i || c >= t.nodes.len() {
            children_findings(file, t, cfg, i, k + 1, java)
        } else {
            subtree_findings(file, t, cfg, c, java) + children_findings(file, t, cfg, i, k + 1, java)
        }
    }
}

/// The god-class findings of a file: Java rules for `.java`, Kotlin rules
/// for `.kt`, none otherwise.
pub open spec fn god_class_findings(file: Seq<char>, t: &SyntaxTree, cfg: GodClassConfig) -> Seq<FindingView> {
    if ends_with_seq(file, ".java"@) {
        subtree_findings(file, t, cfg, 0, true)
    } else if ends_with_seq(file, ".kt"@) {
        subtree_findings(file, t, cfg, 0, false)
    } else {
        Seq::empty()
    }
}

/// The rule that flags classes with more methods or lines than configured.
pub struct GodClassRule {
    pub config: GodClassConfig,
}

impl GodClassRule {
    /// A rule with the given limits.
    pub fn new(config: GodClassConfig) -> (r: Self)
        ensures
            r.config == config,
    {
        GodClassRule { config }
    }

    /// Whether child `c` of a class names it.
    fn names_class_exec(t: &SyntaxTree, c: usize, java: bool) -> (r: bool)
        requires
            c < t.nodes.len(),
        ensures
            r == names_class(t, c as int, java),
    {
        if java {
            t.field_is(c, "name") && t.kind_is(c, "identifier")
        } else {
            t.kind_is(c, "type_identifier")
        }
    }

    /// The methods declared directly in the body of class `i`.
    fn count_methods(t: &SyntaxTree, i: usize, java: bool) -> (r: usize)
        requires
            t.wf(),
            i < t.nodes.len(),
        ensures
            r == method_count(t, i as int, java),
    {
        let n = &t.nodes[i];
        let mut k: usize = 0;
        while k < n.children.len()
            invariant
                t.wf(),
                i < t.nodes.len(),
                n == t.nodes[i as int],
                0 <= k <= n.children@.len(),
                body_from(t, i as int, 0, java) == body_from(t, i as int, k as int, java),
            decreases n.children@.len() - k,
        {
            let c = n.children[k];
            let body = if java {
                t.field_is(c, "body")
            } else {
                t.kind_is(c, "class_body")
            };
            if body {
                let b = &t.nodes[c];
                let mut count: usize = 0;
                let mut m: usize = 0;
                while m < b.children.len()
                    invariant
                        t.wf(),
                        c < t.nodes.len(),
                        b == t.nodes[c as int],
                        0 <= m <= b.children@.len(),
                        count <= m,
                        methods_from(t, c as int, 0, java) == count + methods_from(t, c as int, m as int, java),
                    decreases b.children@.len() - m,
                {
                    let d = b.children[m];
                    let method = if java {
                        t.kind_is(d, "method_declaration")
                    } else {
                        t.kind_is(d, "function_declaration")
                    };
                    if method {
                        count = count + 1;
                    }
                    m = m + 1;
                }
                return count;
            }
            k = k + 1;
        }
        0
    }

    /// The findings for class `i` named by node `c`.
    fn class_violations(&self, file_path: &str, t: &SyntaxTree, i: usize, c: usize, java: bool, out: &mut Vec<Violation>)
        requires
            t.wf(),
            i < t.nodes.len(),
            c < t.nodes.len(),
        ensures
            findings(final(out)@) == findings(old(out)@) + class_findings(file_path@, t, self.config, i as int, c as int, java),
    {
        let ghost before = findings(out@);
        let name = t.text_of(c);
        let line = t.nodes[i].start_row + 1;
        let count = Self::count_methods(t, i, java);
        let loc = t.nodes[i].end_row - t.nodes[i].start_row + 1;
        if count > self.config.max_methods {
            let mut msg: Vec<char> = Vec::new();
            push_str(&mut msg, "Class '");
            push_all(&mut msg, name);
            push_str(&mut msg, "' has ");
            push_all(&mut msg, decimal_chars(count).as_slice());
            push_str(&mut msg, " methods (max ");
            push_all(&mut msg, decimal_chars(self.config.max_methods).as_slice());
            push_str(&mut msg, ")");
            let mut fp: Vec<char> = Vec::new();
            push_str(&mut fp, file_path);
            push_str(&mut fp, ":god_class:");
            push_all(&mut fp, name);
            push_str(&mut fp, ":methods");
            let v = Violation {
                file: file_path.to_owned(),
                line,
                rule: "god_class".to_owned(),
                message: string_of(msg.as_slice()),
                severity: "error".to_owned(),
                fingerprint: string_of(fp.as_slice()),
            };
            out.push(v);
        }
        let ghost middle = findings(out@);
        if loc > self.config.max_loc {
            let mut msg: Vec<char> = Vec::new();
            push_str(&mut msg, "Class '");
            push_all(&mut msg, name);
            push_str(&mut msg, "' spans ");
            push_all(&mut msg, decimal_chars(loc).as_slice());
            push_str(&mut msg, " lines (max ");
            push_all(&mut msg, decimal_chars(self.config.max_loc).as_slice());
            push_str(&mut msg, ")");
            let mut fp: Vec<char> = Vec::new();
            push_str(&mut fp, file_path);
            push_str(&mut fp, ":god_class:");
            push_all(&mut fp, name);
            push_str(&mut fp, ":loc");
            let v = Violation {
                file: file_path.to_owned(),
                line,
                rule: "god_class".to_owned(),
                message: string_of(msg.as_slice()),
                severity: "error".to_owned(),
                fingerprint: string_of(fp.as_slice()),
            };
            out.push(v);
        }
        proof {
            assert(findings(out@) =~= findings(old(out)@) + class_findings(file_path@, t, self.config, i as int, c as int, java));
        }
    }

    /// Appends the findings of the subtree at node `i`.
    fn collect(&self, file_path: &str, t: &SyntaxTree, i: usize, java: bool, out: &mut Vec<Violation>)
        requires
            t.wf(),
            i < t.nodes.len(),
        ensures
            findings(final(out)@) == findings(old(out)@) + subtree_findings(file_path@, t, self.config, i as int, java),
        decreases t.nodes.len() - i, t.nodes[i as int].children.len() + 1,
    {
        let n = &t.nodes[i];
        let ghost start = findings(out@);
        if t.kind_is(i, "class_declaration") {
            let mut k: usize = 0;
            while k < n.children.len()
                invariant
                    t.wf(),
                    i < t.nodes.len(),
                    n == t.nodes[i as int],
                    0 <= k <= n.children@.len(),
                    findings(out@) + name_findings(file_path@, t, self.config, i as int, k as int, java)
                        == start + name_findings(file_path@, t, self.config, i as int, 0, java),
                decreases n.children@.len() - k,
            {
                let c = n.children[k];
                let ghost before = findings(out@);
                if Self::names_class_exec(t, c, java) {
                    self.class_violations(file_path, t, i, c, java, out);
                }
                proof {
                    assert(findings(out@) + name_findings(file_path@, t, self.config, i as int, k + 1, java)
                        =~= before + name_findings(file_path@, t, self.config, i as int, k as int, java));
                }
                k = k + 1;
            }
            proof {
                assert(findings(out@) =~= start + name_findings(file_path@, t, self.config, i as int, 0, java));
            }
        } else {
            assert(findings(out@) =~= start + Seq::empty());
        }
        let ghost own = findings(out@);
        let mut k: usize = 0;
        while k < n.children.len()
            invariant
                t.wf(),
                i < t.nodes.len(),
                n == t.nodes[i as int],
                0 <= k <= n.children@.len(),
                findings(out@) + children_findings(file_path@, t, self.config, i as int, k as int, java)
                    == own + children_findings(file_path@, t, self.config, i as int, 0, java),
            decreases n.children@.len() - k,
        {
            let c = n.children[k];
            let ghost before = findings(out@);
            self.collect(file_path, t, c, java, out);
            proof {
                assert(findings(out@) + children_findings(file_path@, t, self.config, i as int, k + 1, java)
                    =~= before + children_findings(file_path@, t, self.config, i as int, k as int, java));
            }
            k = k + 1;
        }
        proof {
            assert(findings(out@) =~= own + children_findings(file_path@, t, self.config, i as int, 0, java));
        }
    }
}

impl GodClassRule {
    /// The findings of a Java tree: every `class_declaration` named by an
    /// `identifier` in its `name` field, with too many `method_declaration`s
    /// directly in its `body` or too many lines.
    pub fn check_java(&self, file_path: &str, code: &str, tree: &SyntaxTree) -> (r: Vec<Violation>)
        requires
            tree.wf(),
            tree.source@ == code@,
        ensures
            findings(r@) == subtree_findings(file_path@, tree, self.config, 0, true),
    {
        let mut out: Vec<Violation> = Vec::new();
        self.collect(file_path, tree, 0, true, &mut out);
        assert(findings(out@) =~= subtree_findings(file_path@, tree, self.config, 0, true));
        out
    }

    /// The findings of a Kotlin tree: every `class_declaration` named by a
    /// `type_identifier` child, with too many `function_declaration`s directly
    /// in its `class_body` or too many lines.
    pub fn check_kotlin(&self, file_path: &str, code: &str, tree: &SyntaxTree) -> (r: Vec<Violation>)
        requires
            tree.wf(),
            tree.source@ == code@,
        ensures
            findings(r@) == subtree_findings(file_path@, tree, self.config, 0, false),
    {
        let mut out: Vec<Violation> = Vec::new();
        self.collect(file_path, tree, 0, false, &mut out);
        assert(findings(out@) =~= subtree_findings(file_path@, tree, self.config, 0, false));
        out
    }
}

impl Rule for GodClassRule {
    fn check(&self, file_path: &str, code: &str, tree: &SyntaxTree) -> (r: Vec<Violation>)
        ensures
            findings(r@) == god_class_findings(file_path@, tree, self.config),
    {
        let path = crate::text::chars_of(file_path);
        if ends_with_str(path.as_slice(), ".java") {
            self.check_java(file_path, code, tree)
        } else if ends_with_str(path.as_slice(), ".kt") {
            self.check_kotlin(file_path, code, tree)
        } else {
            assert(findings(Seq::<Violation>::empty()) =~= Seq::<FindingView>::empty());
            Vec::new()
        }
    }
}

/// `loose` allows at least as many methods and lines as `strict`.
pub open spec fn at_least_as_loose(loose: GodClassConfig, strict: GodClassConfig) -> bool {
    loose.max_methods >= strict.max_methods && loose.max_loc >= strict.max_loc
}

proof fn lemma_names_fewer(
    file: Seq<char>,
    t: &SyntaxTree,
    strict: GodClassConfig,
    loose: GodClassConfig,
    i: int,
    k: int,
    java: bool,
)
    requires
        at_least_as_loose(loose, strict),
    ensures
        name_findings(file, t, loose, i, k, java).len() <= name_findings(file, t, strict, i, k, java).len(),
    decreases t.nodes[i].children.len() - k,
{
    if !(k < 0 || k >= t.nodes[i].children.len()) {
        lemma_names_fewer(file, t, strict, loose, i, k + 1, java);
    }
}

proof fn lemma_subtree_fewer(
    file: Seq<char>,
    t: &SyntaxTree,
    strict: GodClassConfig,
    loose: GodClassConfig,
    i: int,
    java: bool,
)
    requires
        at_least_as_loose(loose, strict),
    ensures
        subtree_findings(file, t, loose, i, java).len() <= subtree_findings(file, t, strict, i, java).len(),
    decreases t.nodes.len() - i, t.nodes[i].children.len() + 1,
{
    if !(i < 0 || i >= t.nodes.len()) {
        lemma_names_fewer(file, t, strict, loose, i, 0, java);
        lemma_children_fewer(file, t, strict, loose, i, 0, java);
    }
}

proof fn lemma_children_fewer(
    file: Seq<char>,
    t: &SyntaxTree,
    strict: GodClassConfig,
    loose: GodClassConfig,
    i: int,
    k: int,
    java: bool,
)
    requires
        at_least_as_loose(loose, strict),
    ensures
        children_findings(file, t, loose, i, k, java).len() <= children_findings(file, t, strict, i, k, java).len(),
    decreases t.nodes.len() - i, t.nodes[i].children.len() - k,
{
    if !(i < 0 || i >= t.nodes.len() || k < 0 || k >= t.nodes[i].children.len()) {
        let c = t.nodes[i].children[k] as int;
        lemma_children_fewer(file, t, strict, loose, i, k + 1, java);
        if !(c <= i || c >= t.nodes.len()) {
            lemma_subtree_fewer(file, t, strict, loose, c, java);
        }
    }
}

/// Loosening the limits never adds a finding: with at least as many
/// methods and lines allowed, a file has at most as many god-class
/// findings.
pub proof fn lemma_looser_limits_report_no_more(file: Seq<char>, t: &SyntaxTree, strict: GodClassConfig, loose: GodClassConfig)
    requires
        at_least_as_loose(loose, strict),
    ensures
        god_class_findings(file, t, loose).len() <= god_class_findings(file, t, strict).len(),
{
    lemma_subtree_fewer(file, t, strict, loose, 0, true);
    lemma_subtree_fewer(file, t, strict, loose, 0, false);
}

/// `t2` is `t` with every row moved down by `k` lines: the same nodes, with
/// the same kinds, fields, parents, children and texts, each starting and
/// ending `k` rows later.
pub open spec fn rows_shifted(t: &SyntaxTree, t2: &SyntaxTree, k: nat) -> bool {
    &&& t2.nodes.len() == t.nodes.len()
    &&& forall|i: int|
        0 <= i < t.nodes.len() ==> {
            let a = #[trigger] t.nodes[i];
            let b = t2.nodes[i];
            &&& b.kind == a.kind
            &&& b.named == a.named
            &&& b.field == a.field
            &&& b.parent == a.parent
            &&& b.children == a.children
            &&& b.start_row == a.start_row + k
            &&& b.end_row == a.end_row + k
            &&& t2.text(i) == t.text(i)
        }
}

/// `v` with every line moved down by `k`.
pub open spec fn lines_shifted(v: Seq<FindingView>, k: nat) -> Seq<FindingView> {
    v.map_values(|f: FindingView| (f.0, (f.1 + k) as usize, f.2, f.3, f.4, f.5))
}

proof fn lemma_lines_shifted_concat(a: Seq<FindingView>, b: Seq<FindingView>, k: nat)
    ensures
        lines_shifted(a + b, k) == lines_shifted(a, k) + lines_shifted(b, k),
{
    assert(lines_shifted(a + b, k) =~= lines_shifted(a, k) + lines_shifted(b, k));
}

proof fn lemma_body_from_shift(t: &SyntaxTree, t2: &SyntaxTree, k: nat, i: int, j: int, java: bool)
    requires
        t.wf(),
        rows_shifted(t, t2, k),
        0 <= i < t.nodes.len(),
    ensures
        body_from(t2, i, j, java) == body_from(t, i, j, java),
    decreases t.nodes[i].children.len() - j,
{
    assert(t2.nodes[i].children == t.nodes[i].children);
    if 0 <= j < t.nodes[i].children.len() {
        let c = t.nodes[i].children[j] as int;
        assert(t2.nodes[c].field == t.nodes[c].field);
        lemma_body_from_shift(t, t2, k, i, j + 1, java);
    }
}

proof fn lemma_methods_from_shift(t: &SyntaxTree, t2: &SyntaxTree, k: nat, b: int, j: int, java: bool)
    requires
        t.wf(),
        rows_shifted(t, t2, k),
        0 <= b < t.nodes.len(),
    ensures
        methods_from(t2, b, j, java) == methods_from(t, b, j, java),
    decreases t.nodes[b].children.len() - j,
{
    assert(t2.nodes[b].children == t.nodes[b].children);
    if 0 <= j < t.nodes[b].children.len() {
        let c = t.nodes[b].children[j] as int;
        assert(t2.nodes[c].kind == t.nodes[c].kind);
        lemma_methods_from_shift(t, t2, k, b, j + 1, java);
    }
}

proof fn lemma_class_findings_shift(
    file: Seq<char>,
    t: &SyntaxTree,
    t2: &SyntaxTree,
    cfg: GodClassConfig,
    k: nat,
    i: int,
    c: int,
    java: bool,
)
    requires
        t.wf(),
        t2.wf(),
        rows_shifted(t, t2, k),
        0 <= i < t.nodes.len(),
        0 <= c < t.nodes.len(),
    ensures
        class_findings(file, t2, cfg, i, c, java) == lines_shifted(class_findings(file, t, cfg, i, c, java), k),
{
    lemma_body_from_shift(t, t2, k, i, 0, java);
    match body_from(t, i, 0, java) {
        Some(b) => {
            assert(i < b < t.nodes.len()) by {
                lemma_body_in_children(t, i, 0, java);
            }
            lemma_methods_from_shift(t, t2, k, b, 0, java);
        },
        None => {},
    }
    assert(t2.nodes[i].start_row == t.nodes[i].start_row + k);
    assert(t2.text(c) == t.text(c));
    assert(class_lines(t2, i) == class_lines(t, i));
    assert(class_findings(file, t2, cfg, i, c, java) =~= lines_shifted(class_findings(file, t, cfg, i, c, java), k));
}

proof fn lemma_body_in_children(t: &SyntaxTree, i: int, j: int, java: bool)
    requires
        t.wf(),
        0 <= i < t.nodes.len(),
    ensures
        body_from(t, i, j, java) matches Some(b) ==> i < b < t.nodes.len(),
    decreases t.nodes[i].children.len() - j,
{
    if 0 <= j < t.nodes[i].children.len() {
        lemma_body_in_children(t, i, j + 1, java);
    }
}

proof fn lemma_names_shift(
    file: Seq<char>,
    t: &SyntaxTree,
    t2: &SyntaxTree,
    cfg: GodClassConfig,
    k: nat,
    i: int,
    j: int,
    java: bool,
)
    requires
        t.wf(),
        t2.wf(),
        rows_shifted(t, t2, k),
        0 <= i < t.nodes.len(),
    ensures
        name_findings(file, t2, cfg, i, j, java) == lines_shifted(name_findings(file, t, cfg, i, j, java), k),
    decreases t.nodes[i].children.len() - j,
{
    assert(t2.nodes[i].children == t.nodes[i].children);
    if 0 <= j < t.nodes[i].children.len() {
        let c = t.nodes[i].children[j] as int;
        assert(t2.nodes[c].kind == t.nodes[c].kind && t2.nodes[c].field == t.nodes[c].field);
        lemma_names_shift(file, t, t2, cfg, k, i, j + 1, java);
        let own = if names_class(t, c, java) {
            class_findings(file, t, cfg, i, c, java)
        } else {
            Seq::empty()
        };
        if names_class(t, c, java) {
            lemma_class_findings_shift(file, t, t2, cfg, k, i, c, java);
        } else {
            assert(lines_shifted(own, k) =~= Seq::<FindingView>::empty());
        }
        lemma_lines_shifted_concat(own, name_findings(file, t, cfg, i, j + 1, java), k);
    } else {
        assert(lines_shifted(Seq::<FindingView>::empty(), k) =~= Seq::<FindingView>::empty());
    }
}

proof fn lemma_subtree_shift(
    file: Seq<char>,
    t: &SyntaxTree,
    t2: &SyntaxTree,
    cfg: GodClassConfig,
    k: nat,
    i: int,
    java: bool,
)
    requires
        t.wf(),
        t2.wf(),
        rows_shifted(t, t2, k),
    ensures
        subtree_findings(file, t2, cfg, i, java) == lines_shifted(subtree_findings(file, t, cfg, i, java), k),
    decreases t.nodes.len() - i, t.nodes[i].children.len() + 1,
{
    if 0 <= i < t.nodes.len() {
        assert(t2.nodes[i].kind == t.nodes[i].kind);
        lemma_children_shift(file, t, t2, cfg, k, i, 0, java);
        let own = if t.kind(i) == "class_declaration"@ {
            name_findings(file, t, cfg, i, 0, java)
        } else {
            Seq::empty()
        };
        if t.kind(i) == "class_declaration"@ {
            lemma_names_shift(file, t, t2, cfg, k, i, 0, java);
        } else {
            assert(lines_shifted(own, k) =~= Seq::<FindingView>::empty());
        }
        lemma_lines_shifted_concat(own, children_findings(file, t, cfg, i, 0, java), k);
    } else {
        assert(lines_shifted(Seq::<FindingView>::empty(), k) =~= Seq::<FindingView>::empty());
    }
}

proof fn lemma_children_shift(
    file: Seq<char>,
    t: &SyntaxTree,
    t2: &SyntaxTree,
    cfg: GodClassConfig,
    k: nat,
    i: int,
    j: int,
    java: bool,
)
    requires
        t.wf(),
        t2.wf(),
        rows_shifted(t, t2, k),
    ensures
        children_findings(file, t2, cfg, i, j, java) == lines_shifted(children_findings(file, t, cfg, i, j, java), k),
    decreases t.nodes.len() - i, t.nodes[i].children.len() - j,
{
    if 0 <= i < t.nodes.len() && 0 <= j < t.nodes[i].children.len() {
        assert(t2.nodes[i].children == t.nodes[i].children);
        let c = t.nodes[i].children[j] as int;
        lemma_children_shift(file, t, t2, cfg, k, i, j + 1, java);
        if !(c <= i || c >= t.nodes.len()) {
            lemma_subtree_shift(file, t, t2, cfg, k, c, java);
            lemma_lines_shifted_concat(
                subtree_findings(file, t, cfg, c, java),
                children_findings(file, t, cfg, i, j + 1, java),
                k,
            );
        }
    } else {
        assert(lines_shifted(Seq::<FindingView>::empty(), k) =~= Seq::<FindingView>::empty());
    }
}

/// Moving a source down by `k` lines moves its god-class findings down by
/// `k` lines and changes nothing else: for a tree whose rows are those of
/// another tree shifted by `k`, with the same structure and node texts, the
/// findings are the same, in the same order, with the same messages and
/// fingerprints, each on a line `k` further down.
pub proof fn lemma_line_shift_moves_findings(
    file: Seq<char>,
    t: &SyntaxTree,
    t2: &SyntaxTree,
    cfg: GodClassConfig,
    k: nat,
)
    requires
        t.wf(),
        t2.wf(),
        rows_shifted(t, t2, k),
    ensures
        god_class_findings(file, t2, cfg) == lines_shifted(god_class_findings(file, t, cfg), k),
{
    lemma_subtree_shift(file, t, t2, cfg, k, 0, true);
    lemma_subtree_shift(file, t, t2, cfg, k, 0, false);
    assert(lines_shifted(Seq::<FindingView>::empty(), k) =~= Seq::<FindingView>::empty());
}

/// The children of `b` from the `k`-th on that are `method_declaration`s.
pub open spec fn method_declarations_from(t: &SyntaxTree, b: int, k: int) -> Seq<usize> {
    t.nodes[b].children@.subrange(k, t.nodes[b].children@.len() as int).filter(
        |c: usize| t.kind(c as int) == "method_declaration"@,
    )
}

proof fn lemma_java_methods_from(t: &SyntaxTree, b: int, k: int)
    requires
        0 <= b < t.nodes.len(),
        0 <= k <= t.nodes[b].children@.len(),
    ensures
        methods_from(t, b, k, true) == method_declarations_from(t, b, k).len(),
    decreases t.nodes[b].children@.len() - k,
{
    let ch = t.nodes[b].children@;
    let pred = |c: usize| t.kind(c as int) == "method_declaration"@;
    if k < ch.len() {
        lemma_java_methods_from(t, b, k + 1);
        let rest = ch.subrange(k + 1, ch.len() as int);
        assert(ch.subrange(k, ch.len() as int) =~= seq![ch[k]] + rest);
        Seq::filter_distributes_over_add(seq![ch[k]], rest, pred);
        reveal(Seq::filter);
        assert(seq![ch[k]].drop_last() =~= Seq::<usize>::empty());
        assert(Seq::<usize>::empty().filter(pred) =~= Seq::<usize>::empty());
    } else {
        reveal(Seq::filter);
        assert(ch.subrange(k, ch.len() as int) =~= Seq::<usize>::empty());
    }
}

/// A Java class counts exactly its methods: the method count of a class is
/// the number of direct children of its body whose kind is
/// `method_declaration`, so constructors, fields and nested types never add
/// to it; a class without a body has none.
pub proof fn lemma_java_counts_method_declarations_only(t: &SyntaxTree, i: int)
    requires
        t.wf(),
        0 <= i < t.nodes.len(),
    ensures
        method_count(t, i, true) == match body_from(t, i, 0, true) {
            Some(b) => method_declarations_from(t, b, 0).len(),
            None => 0,
        },
{
    lemma_body_in_children(t, i, 0, true);
    if let Some(b) = body_from(t, i, 0, true) {
        lemma_java_methods_from(t, b, 0);
    }
}

} // verus!
