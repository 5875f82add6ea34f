//! Java and Kotlin analyzers: tree-sitter parses the source, the library
//! validates the reported nodes and builds a [`SyntaxTree`].
use crate::syntax::{build_tree, records_admissible, tree_models, utf8_len, NodeRecord, SyntaxTree};
use crate::text::chars_of;
use vstd::prelude::*;

verus! {

#[verifier::external_type_specification]
#[verifier::external_body]
pub struct ExTreeSitterNode<'a>(tree_sitter::Node<'a>);

/// The nodes, in pre-order, that tree-sitter's Java grammar
/// (`tree_sitter_java::LANGUAGE`) produces for `code`; `None` when the parser
/// yields no tree.
pub uninterp spec fn java_syntax(code: Seq<char>) -> Option<Vec<NodeRecord>>;

/// The nodes, in pre-order, that tree-sitter's Kotlin grammar
/// (`brokk_tree_sitter_kotlin::LANGUAGE`) produces for `code`; `None` when the
/// parser yields no tree.
pub uninterp spec fn kotlin_syntax(code: Seq<char>) -> Option<Vec<NodeRecord>>;

/// Appends `node` and its descendants, in pre-order, to `records`, copying
/// each tree-sitter node's kind, named flag, field name, byte range, rows,
/// error and missing flags, and the index of its parent record.
#[verifier::external_body]
fn push_records(
    node: tree_sitter::Node,
    field: Option<&str>,
    parent: Option<usize>,
    records: &mut Vec<NodeRecord>,
) {
    let index = records.len();
    records.push(NodeRecord { kind: node.kind().to_string(), named: node.is_named(),
        field: field.map(String::from), start_byte: node.start_byte(), end_byte: node.end_byte(),
        start_row: node.start_position().row, end_row: node.end_position().row, parent,
        error: node.is_error(), missing: node.is_missing() });
    for i in 0..node.child_count() {
        if let Some(child) = node.child(i) {
            push_records(child, node.field_name_for_child(i as u32), Some(index), records);
        }
    }
}

/// Parses `code` with `tree_sitter::Parser` set to `tree_sitter_java::LANGUAGE`
/// and hands over the tree's nodes in pre-order; the contract claims only that
/// the result is the grammar's fixed answer for `code`.
#[verifier::external_body]
fn java_records(code: &str) -> (r: Option<Vec<NodeRecord>>)
    ensures
        r == java_syntax(code@),
{
    let mut parser = tree_sitter::Parser::new();
    parser.set_language(&tree_sitter_java::LANGUAGE.into()).ok()?;
    let tree = parser.parse(code, None)?;
    let mut records = Vec::new();
    push_records(tree.root_node(), None, None, &mut records);
    Some(records)
}

/// Parses `code` with `tree_sitter::Parser` set to `brokk_tree_sitter_kotlin::LANGUAGE`
/// and hands over the tree's nodes in pre-order; the contract claims only that
/// the result is the grammar's fixed answer for `code`.
#[verifier::external_body]
fn kotlin_records(code: &str) -> (r: Option<Vec<NodeRecord>>)
    ensures
        r == kotlin_syntax(code@),
{
    let mut parser = tree_sitter::Parser::new();
    parser.set_language(&brokk_tree_sitter_kotlin::LANGUAGE.into()).ok()?;
    let tree = parser.parse(code, None)?;
    let mut records = Vec::new();
    push_records(tree.root_node(), None, None, &mut records);
    Some(records)
}

/// Why a source could not be turned into a syntax tree.
#[derive(Debug, Clone, Copy, PartialEq, Eq)]
pub enum AnalyzeError {
    /// The parser produced no tree.
    ParseFailed,
    /// The parser's nodes do not form a tree over the source.
    MalformedTree,
}

/// The outcome that analysing `code` has, given what the parser reported.
pub open spec fn analysis_of(
    code: Seq<char>,
    reported: Option<Vec<NodeRecord>>,
    r: Result<SyntaxTree, AnalyzeError>,
) -> bool {
    match reported {
        None => r == Err::<SyntaxTree, AnalyzeError>(AnalyzeError::ParseFailed),
        Some(records) => if records_admissible(code, records@) && utf8_len(code) <= usize::MAX {
            r matches Ok(t) && tree_models(&t, code, records@)
        } else {
            r == Err::<SyntaxTree, AnalyzeError>(AnalyzeError::MalformedTree)
        },
    }
}

fn analyze_records(code: &str, reported: Option<Vec<NodeRecord>>) -> (r: Result<
    SyntaxTree,
    AnalyzeError,
>)
    ensures
        analysis_of(code@, reported, r),
{
    match reported {
        None => Err(AnalyzeError::ParseFailed),
        Some(records) => match build_tree(chars_of(code), records) {
            Some(t) => Ok(t),
            None => Err(AnalyzeError::MalformedTree),
        },
    }
}

/// A language front end: turns source text into a syntax tree.
pub trait LanguageAnalyzer {
    fn analyze(&self, code: &str) -> Result<SyntaxTree, AnalyzeError>;
}

/// Java front end.
pub struct JavaAnalyzer;

impl JavaAnalyzer {
    pub fn new() -> Self {
        JavaAnalyzer
    }
}

impl LanguageAnalyzer for JavaAnalyzer {
    /// The Java syntax tree of `code`.
    fn analyze(&self, code: &str) -> (r: Result<SyntaxTree, AnalyzeError>)
        ensures
            analysis_of(code@, java_syntax(code@), r),
    {
        analyze_records(code, java_records(code))
    }
}

/// Kotlin front end.
pub struct KotlinAnalyzer;

impl KotlinAnalyzer {
    pub fn new() -> Self {
        KotlinAnalyzer
    }
}

impl LanguageAnalyzer for KotlinAnalyzer {
    /// The Kotlin syntax tree of `code`.
    fn analyze(&self, code: &str) -> (r: Result<SyntaxTree, AnalyzeError>)
        ensures
            analysis_of(code@, kotlin_syntax(code@), r),
    {
        analyze_records(code, kotlin_records(code))
    }
}

} // verus!
