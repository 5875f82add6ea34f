//! Quality aspects run through external tools: detecting an Android
//! project's Gradle tasks and turning tool results into findings.
use vstd::prelude::*;

pub mod android;
pub mod orchestrator;

verus! {

} // verus!
