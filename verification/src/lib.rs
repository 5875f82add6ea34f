//! Code-quality gate for Java and Kotlin projects: architectural rules,
//! native dead-code and duplication analysis, Gradle task detection and the
//! decisions that turn configured quality aspects into findings.
use vstd::prelude::*;

pub mod analyzer;
pub mod aspects;
pub mod audit;
pub mod config;
pub mod git;
pub mod path_policy;
pub mod report;
pub mod rules;
pub mod sorting;
pub mod syntax;
pub mod text;

verus! {

} // verus!
