//! The report of an audit run: the findings of the architectural rules on
//! every file, those of the natively checked aspects, those of the aspect
//! commands, and the baseline applied to them all.
use crate::audit::{apply_baseline, add_native_findings, native_outcome, unsuppressed, unsuppressed_advisories};
use crate::config::{advisories, Advisory, AdvisoryView, AspectConfig, QualityAspect};
use crate::rules::dead_code::{dead_code_findings, DeadCodeRule};
use crate::rules::duplication::{duplication_findings, node_tokens, DuplicationRule};
use crate::rules::god_class::{god_class_findings, GodClassRule};
use crate::rules::layers::{layer_findings, LayerRule};
use crate::rules::{findings, FindingView, Rule, Violation};
use crate::syntax::SyntaxTree;
use crate::config::{GodClassConfig, LayerMap};
use vstd::prelude::*;

verus! {

/// The files of a run are trees over their code, with a token count that
/// fits in memory.
pub open spec fn files_ready(files: Seq<(&str, &str, &SyntaxTree)>) -> bool {
    forall|k: int|
        0 <= k < files.len() ==> (#[trigger] files[k]).2.wf() && files[k].2.source@ == files[k].1@
            && node_tokens(files[k].2, 0).len() < usize::MAX
}

/// The findings of the god-class and layering rules on the first `n` files,
/// file by file, each file's god-class findings before its layering ones.
pub open spec fn rule_findings(
    files: Seq<(&str, &str, &SyntaxTree)>,
    god_class: GodClassConfig,
    layers: LayerMap,
    n: int,
) -> Seq<FindingView>
    decreases n,
{
    if n <= 0 {
        Seq::empty()
    } else {
        rule_findings(files, god_class, layers, n - 1) + god_class_findings(files[n - 1].0@, files[n - 1].2, god_class)
            + layer_findings(files[n - 1].0@, files[n - 1].2, layers)
    }
}

/// The findings and advisories that the dead-code findings of the first
/// `m` files give under the settings `c` of `aspect`, file by file.
pub open spec fn dead_code_results(
    files: Seq<(&str, &str, &SyntaxTree)>,
    aspect: QualityAspect,
    c: AspectConfig,
    m: int,
) -> (Seq<FindingView>, Seq<AdvisoryView>)
    decreases m,
{
    if m <= 0 {
        (Seq::empty(), Seq::empty())
    } else {
        let prev = dead_code_results(files, aspect, c, m - 1);
        let own = native_outcome(aspect, c, dead_code_findings(files[m - 1].0@, files[m - 1].2));
        (prev.0 + own.0, prev.1 + own.1)
    }
}

/// The findings and advisories of the first `n` natively checked aspects:
/// dead code file by file, duplication across all files.
pub open spec fn native_results(
    files: Seq<(&str, &str, &SyntaxTree)>,
    native: Seq<(QualityAspect, AspectConfig)>,
    n: int,
) -> (Seq<FindingView>, Seq<AdvisoryView>)
    decreases n,
{
    if n <= 0 {
        (Seq::empty(), Seq::empty())
    } else {
        let prev = native_results(files, native, n - 1);
        let a = native[n - 1].0;
        let c = native[n - 1].1;
        let own = if a == QualityAspect::DeadCode {
            dead_code_results(files, a, c, files.len() as int)
        } else if a == QualityAspect::Duplication {
            native_outcome(a, c, duplication_findings(files))
        } else {
            (Seq::empty(), Seq::empty())
        };
        (prev.0 + own.0, prev.1 + own.1)
    }
}

/// The report before the baseline: the rule findings, then the native
/// findings, then the findings of the aspect commands; the native
/// advisories, then those of the aspect commands.
pub open spec fn unfiltered_report(
    files: Seq<(&str, &str, &SyntaxTree)>,
    god_class: GodClassConfig,
    layers: LayerMap,
    native: Seq<(QualityAspect, AspectConfig)>,
    external: (Seq<FindingView>, Seq<AdvisoryView>),
) -> (Seq<FindingView>, Seq<AdvisoryView>) {
    let n = native_results(files, native, native.len() as int);
    (rule_findings(files, god_class, layers, files.len() as int) + n.0 + external.0, n.1 + external.1)
}

proof fn lemma_findings_concat(a: Seq<Violation>, b: Seq<Violation>)
    ensures
        findings(a + b) == findings(a) + findings(b),
{
    assert(findings(a + b) =~= findings(a) + findings(b));
}

proof fn lemma_advisories_concat(a: Seq<Advisory>, b: Seq<Advisory>)
    ensures
        advisories(a + b) == advisories(a) + advisories(b),
{
    assert(advisories(a + b) =~= advisories(a) + advisories(b));
}

/// The findings and advisories of an audit run over `files`: the god-class
/// and layering rules on every file, the natively checked aspects `native`
/// (dead code per file, duplication across the files), then the results of
/// the aspect commands `external`, with the baseline applied to all.
pub fn audit_report(
    files: &[(&str, &str, &SyntaxTree)],
    god_class: &GodClassRule,
    layers: &LayerRule,
    native: &[(QualityAspect, AspectConfig)],
    external: (Vec<Violation>, Vec<Advisory>),
    baseline: &Vec<String>,
) -> (r: (Vec<Violation>, Vec<Advisory>))
    requires
        files_ready(files@),
    ensures
        ({
            let report = unfiltered_report(
                files@,
                god_class.config,
                layers.layers,
                native@,
                (findings(external.0@), advisories(external.1@)),
            );
            let b = baseline@.map_values(|s: String| s@).to_set();
            findings(r.0@) == unsuppressed(report.0, b) && advisories(r.1@) == unsuppressed_advisories(
                report.1,
                b,
            )
        }),
{
    let mut violations: Vec<Violation> = Vec::new();
    let mut notes: Vec<Advisory> = Vec::new();
    let mut k: usize = 0;
    while k < files.len()
        invariant
            files_ready(files@),
            0 <= k <= files@.len(),
            findings(violations@) == rule_findings(files@, god_class.config, layers.layers, k as int),
            notes@.len() == 0,
        decreases files@.len() - k,
    {
        let (path, code, tree) = files[k];
        proof {
            assert(files@[k as int].2.wf());
        }
        let ghost before = violations@;
        let mut own = god_class.check(path, code, tree);
        let ghost g = own@;
        violations.append(&mut own);
        let mut more = layers.check(path, code, tree);
        let ghost l = more@;
        violations.append(&mut more);
        proof {
            lemma_findings_concat(before, g);
            lemma_findings_concat(before + g, l);
            assert(violations@ == before + g + l);
        }
        k = k + 1;
    }
    let ghost ruled = findings(violations@);
    let mut j: usize = 0;
    while j < native.len()
        invariant
            files_ready(files@),
            0 <= j <= native@.len(),
            ruled == rule_findings(files@, god_class.config, layers.layers, files@.len() as int),
            findings(violations@) == ruled + native_results(files@, native@, j as int).0,
            advisories(notes@) == native_results(files@, native@, j as int).1,
        decreases native@.len() - j,
    {
        let aspect = native[j].0;
        let config = &native[j].1;
        let ghost vb = findings(violations@);
        let ghost nb = advisories(notes@);
        if aspect == QualityAspect::DeadCode {
            let rule = DeadCodeRule::new();
            let mut m: usize = 0;
            while m < files.len()
                invariant
                    files_ready(files@),
                    0 <= m <= files@.len(),
                    aspect == QualityAspect::DeadCode,
                    *config == native@[j as int].1,
                    findings(violations@) == vb + dead_code_results(files@, aspect, *config, m as int).0,
                    advisories(notes@) == nb + dead_code_results(files@, aspect, *config, m as int).1,
                decreases files@.len() - m,
            {
                let (path, code, tree) = files[m];
                proof {
                    assert(files@[m as int].2.wf());
                }
                let found = rule.check_source(path, code, tree);
                add_native_findings(aspect, config, &mut violations, &mut notes, found);
                proof {
                    assert(findings(violations@) =~= vb + dead_code_results(files@, aspect, *config, m + 1).0);
                    assert(advisories(notes@) =~= nb + dead_code_results(files@, aspect, *config, m + 1).1);
                }
                m = m + 1;
            }
        } else if aspect == QualityAspect::Duplication {
            let found = DuplicationRule::new().check_files(files);
            add_native_findings(aspect, config, &mut violations, &mut notes, found);
        } else {
            proof {
                assert(vb + Seq::<FindingView>::empty() =~= vb);
                assert(nb + Seq::<AdvisoryView>::empty() =~= nb);
            }
        }
        proof {
            assert(findings(violations@) =~= ruled + native_results(files@, native@, j + 1).0);
            assert(advisories(notes@) =~= native_results(files@, native@, j + 1).1);
        }
        j = j + 1;
    }
    let (mut ext_violations, mut ext_notes) = external;
    let ghost v_before = violations@;
    let ghost n_before = notes@;
    let ghost ev = ext_violations@;
    let ghost en = ext_notes@;
    violations.append(&mut ext_violations);
    notes.append(&mut ext_notes);
    proof {
        lemma_findings_concat(v_before, ev);
        lemma_advisories_concat(n_before, en);
    }
    apply_baseline(violations, notes, baseline)
}

} // verus!
