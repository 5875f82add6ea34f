//! Findings and the rules that produce them from a parsed source file.
use crate::syntax::SyntaxTree;
use vstd::prelude::*;

pub mod dead_code;
pub mod duplication;
pub mod god_class;
pub mod layers;
pub mod tree_walk;

verus! {

/// One finding of a rule.
#[derive(Debug, Clone, PartialEq, Eq, Hash)]
pub struct Violation {
    pub file: String,
    pub line: usize,
    pub rule: String,
    pub message: String,
    pub severity: String,
    pub fingerprint: String,
}

/// The ghost form of a finding: file, line, rule, message, severity and
/// fingerprint.
pub type FindingView = (Seq<char>, usize, Seq<char>, Seq<char>, Seq<char>, Seq<char>);

impl View for Violation {
    type V = FindingView;

    open spec fn view(&self) -> FindingView {
        (self.file@, self.line, self.rule@, self.message@, self.severity@, self.fingerprint@)
    }
}

/// The ghost forms of `v`.
pub open spec fn findings(v: Seq<Violation>) -> Seq<FindingView> {
    v.map_values(|f: Violation| f@)
}

/// A rule that inspects one parsed source file.
pub trait Rule {
    /// The findings of the rule in the file at `file_path`, whose text is
    /// `code` and whose syntax tree is `tree`.
    fn check(&self, file_path: &str, code: &str, tree: &SyntaxTree) -> Vec<Violation>
        requires
            tree.wf(),
            tree.source@ == code@,
    ;
}

} // verus!
