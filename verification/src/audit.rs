//! The decisions of an audit run that do not touch the file system:
//! which aspects run and how, which files are analysed, how findings are
//! reported and which are suppressed by the baseline.
use crate::config::{
    copy_aspect_config, AspectMap, advisories, aspect_name, severity_name, Advisory, AdvisoryView, AspectConfig, QualityAspect,
    Severity, Stage,
};
use crate::analyzer::{java_syntax, kotlin_syntax, AnalyzeError, JavaAnalyzer, KotlinAnalyzer, LanguageAnalyzer};
use crate::syntax::{records_admissible, tree_models, utf8_len, NodeRecord, SyntaxTree};
use crate::path_policy::{components, path_components, strip_components, strip_prefix, Comp, PathComponent, models};
use crate::rules::{findings, FindingView, Violation};
use crate::text::{
    chars_are, chars_equal_string, chars_of, lower, lower_is, push_all, push_str, string_of, trim,
    trim_bounds,
};
use vstd::prelude::*;

verus! {

/// The quality aspects, in the order an audit considers them.
pub open spec fn aspect_list() -> Seq<QualityAspect> {
    seq![
        QualityAspect::Style,
        QualityAspect::Lint,
        QualityAspect::TypeCheck,
        QualityAspect::UnitTest,
        QualityAspect::IntegrationTest,
        QualityAspect::Build,
        QualityAspect::DeadCode,
        QualityAspect::Duplication,
        QualityAspect::R8,
    ]
}

/// Every quality aspect, in the order an audit considers them.
pub fn all_aspects() -> (r: Vec<QualityAspect>)
    ensures
        r@ == aspect_list(),
{
    let r = vec![
        QualityAspect::Style,
        QualityAspect::Lint,
        QualityAspect::TypeCheck,
        QualityAspect::UnitTest,
        QualityAspect::IntegrationTest,
        QualityAspect::Build,
        QualityAspect::DeadCode,
        QualityAspect::Duplication,
        QualityAspect::R8,
    ];
    assert(r@ =~= aspect_list());
    r
}

/// `configured` over `detected`: each field the user set wins, the others
/// come from detection (or are absent).
pub open spec fn merged_config(configured: Option<AspectConfig>, detected: Option<AspectConfig>) -> AspectConfig {
    let base = match detected {
        Some(d) => d,
        None => crate::config::empty_aspect_config(),
    };
    match configured {
        None => base,
        Some(c) => AspectConfig {
            command: if c.command is Some { c.command } else { base.command },
            stage: if c.stage is Some { c.stage } else { base.stage },
            timeout_secs: if c.timeout_secs is Some { c.timeout_secs } else { base.timeout_secs },
            severity: if c.severity is Some { c.severity } else { base.severity },
            enabled: if c.enabled is Some { c.enabled } else { base.enabled },
        },
    }
}

/// A copy of an optional string.
fn copy_option_string(s: &Option<String>) -> (r: Option<String>)
    ensures
        r == *s,
{
    match s {
        Some(x) => Some(x.clone()),
        None => None,
    }
}

/// Merges the configured settings of an aspect over the detected ones.
pub fn merge_aspect_config(configured: Option<&AspectConfig>, detected: Option<&AspectConfig>) -> (r: AspectConfig)
    ensures
        r == merged_config(
            match configured {
                Some(c) => Some(*c),
                None => None,
            },
            match detected {
                Some(d) => Some(*d),
                None => None,
            },
        ),
{
    let mut merged = match detected {
        Some(d) => crate::config::copy_aspect_config(d),
        None => AspectConfig { command: None, stage: None, timeout_secs: None, severity: None, enabled: None },
    };
    if let Some(c) = configured {
        if c.command.is_some() {
            merged.command = copy_option_string(&c.command);
        }
        if c.stage.is_some() {
            merged.stage = c.stage;
        }
        if c.timeout_secs.is_some() {
            merged.timeout_secs = c.timeout_secs;
        }
        if c.severity.is_some() {
            merged.severity = c.severity;
        }
        if c.enabled.is_some() {
            merged.enabled = c.enabled;
        }
    }
    merged
}

/// The aspects checked natively, by this library.
pub open spec fn native_aspect(aspect: QualityAspect) -> bool {
    aspect == QualityAspect::DeadCode || aspect == QualityAspect::Duplication
}

/// Whether `aspect` is checked natively, by this library.
pub fn is_native_aspect(aspect: QualityAspect) -> (r: bool)
    ensures
        r == native_aspect(aspect),
{
    aspect == QualityAspect::DeadCode || aspect == QualityAspect::Duplication
}

/// The stage an aspect runs at when none is configured: style, lint, type
/// checks and the native aspects before a commit, the rest before a push.
pub open spec fn default_stage_of(aspect: QualityAspect) -> Stage {
    if aspect == QualityAspect::Style || aspect == QualityAspect::Lint || aspect == QualityAspect::TypeCheck
        || aspect == QualityAspect::DeadCode || aspect == QualityAspect::Duplication {
        Stage::PreCommit
    } else {
        Stage::PrePush
    }
}

/// The stage an aspect runs at when none is configured.
pub fn default_stage(aspect: QualityAspect) -> (r: Stage)
    ensures
        r == default_stage_of(aspect),
{
    match aspect {
        QualityAspect::Style | QualityAspect::Lint | QualityAspect::TypeCheck | QualityAspect::DeadCode
        | QualityAspect::Duplication => Stage::PreCommit,
        _ => Stage::PrePush,
    }
}

/// An aspect runs unless it is disabled or ignored; in a full run always,
/// otherwise only at the pre-commit stage.
pub open spec fn runs_aspect(aspect: QualityAspect, c: AspectConfig, full_scope: bool) -> bool {
    if c.enabled == Some(false) || c.severity == Some(Severity::Ignore) {
        false
    } else if full_scope {
        true
    } else {
        (match c.stage {
            Some(s) => s,
            None => default_stage_of(aspect),
        }) == Stage::PreCommit
    }
}

/// Whether `aspect` runs in this run.
pub fn should_run_aspect(aspect: QualityAspect, config: &AspectConfig, full_scope: bool) -> (r: bool)
    ensures
        r == runs_aspect(aspect, *config, full_scope),
{
    if config.enabled == Some(false) || config.severity == Some(Severity::Ignore) {
        return false;
    }
    if full_scope {
        return true;
    }
    let stage = match config.stage {
        Some(s) => s,
        None => default_stage(aspect),
    };
    stage == Stage::PreCommit
}

/// A full audit runs every aspect that a diff audit runs, and a disabled or
/// ignored aspect runs in neither.
pub proof fn lemma_full_scope_covers_diff(aspect: QualityAspect, c: AspectConfig)
    ensures
        runs_aspect(aspect, c, false) ==> runs_aspect(aspect, c, true),
        (c.enabled == Some(false) || c.severity == Some(Severity::Ignore)) ==> !runs_aspect(aspect, c, false)
            && !runs_aspect(aspect, c, true),
{
}

/// Merge precedence: a setting the user configured always wins; a setting
/// left out comes from detection; with nothing detected the configured
/// settings stand as they are, and with nothing configured the detected
/// ones do.
pub proof fn lemma_configured_settings_win(c: AspectConfig, detected: Option<AspectConfig>)
    ensures
        ({
            let m = merged_config(Some(c), detected);
            let d = match detected {
                Some(d) => d,
                None => crate::config::empty_aspect_config(),
            };
            &&& m.command == (if c.command is Some { c.command } else { d.command })
            &&& m.stage == (if c.stage is Some { c.stage } else { d.stage })
            &&& m.timeout_secs == (if c.timeout_secs is Some { c.timeout_secs } else { d.timeout_secs })
            &&& m.severity == (if c.severity is Some { c.severity } else { d.severity })
            &&& m.enabled == (if c.enabled is Some { c.enabled } else { d.enabled })
        }),
        merged_config(Some(c), None) == c,
        detected matches Some(d) ==> merged_config(None, detected) == d,
{
}

/// Where an aspect is checked in a run.
#[derive(Debug, Clone, Copy, PartialEq, Eq)]
pub enum AspectRoute {
    /// The aspect does not run.
    Skipped,
    /// The library's own analyzer checks it.
    Native,
    /// Its command runs.
    External,
}

/// Where `aspect` is checked: not at all unless it runs; natively when the
/// library has an analyzer for it and no command is configured; otherwise
/// by its command.
pub open spec fn route_of(aspect: QualityAspect, c: AspectConfig, full_scope: bool) -> AspectRoute {
    if !runs_aspect(aspect, c, full_scope) {
        AspectRoute::Skipped
    } else if native_aspect(aspect) && !has_command_spec(c) {
        AspectRoute::Native
    } else {
        AspectRoute::External
    }
}

/// Where `aspect` is checked in this run.
pub fn aspect_route(aspect: QualityAspect, config: &AspectConfig, full_scope: bool) -> (r: AspectRoute)
    ensures
        r == route_of(aspect, *config, full_scope),
{
    if !should_run_aspect(aspect, config, full_scope) {
        AspectRoute::Skipped
    } else if is_native_aspect(aspect) && !has_command(config) {
        AspectRoute::Native
    } else {
        AspectRoute::External
    }
}

/// Native fallback: an aspect that runs is checked by the library's own
/// analyzer exactly when it has one and no command is configured; every
/// other aspect that runs is checked by its command.
pub proof fn lemma_native_fallback(aspect: QualityAspect, c: AspectConfig, full_scope: bool)
    ensures
        route_of(aspect, c, full_scope) == AspectRoute::Native <==> runs_aspect(aspect, c, full_scope)
            && native_aspect(aspect) && !has_command_spec(c),
        route_of(aspect, c, full_scope) == AspectRoute::External <==> runs_aspect(aspect, c, full_scope)
            && (!native_aspect(aspect) || has_command_spec(c)),
        route_of(aspect, c, full_scope) == AspectRoute::Skipped <==> !runs_aspect(aspect, c, full_scope),
{
}

/// Which aspects a diff audit runs when no stage is set: an enabled aspect
/// that is not ignored runs in a diff (pre-commit) audit exactly when it is
/// style, lint, type checking, dead code or duplication; unit tests,
/// integration tests, builds and R8 wait for a full audit.  So dead code and
/// duplication without a command are checked natively by a diff audit, and
/// a full audit checks them the same way.
pub proof fn lemma_diff_audit_defaults(aspect: QualityAspect, c: AspectConfig)
    requires
        c.stage is None,
        c.enabled != Some(false),
        c.severity != Some(Severity::Ignore),
    ensures
        runs_aspect(aspect, c, false) <==> (aspect == QualityAspect::Style || aspect == QualityAspect::Lint
            || aspect == QualityAspect::TypeCheck || aspect == QualityAspect::DeadCode || aspect
            == QualityAspect::Duplication),
        runs_aspect(aspect, c, true),
        (aspect == QualityAspect::DeadCode || aspect == QualityAspect::Duplication) && c.command is None ==> route_of(
            aspect,
            c,
            false,
        ) == AspectRoute::Native && route_of(aspect, c, true) == AspectRoute::Native,
{
}

/// The position of `aspect` in [`aspect_list`].
pub open spec fn aspect_position(aspect: QualityAspect) -> int {
    match aspect {
        QualityAspect::Style => 0,
        QualityAspect::Lint => 1,
        QualityAspect::TypeCheck => 2,
        QualityAspect::UnitTest => 3,
        QualityAspect::IntegrationTest => 4,
        QualityAspect::Build => 5,
        QualityAspect::DeadCode => 6,
        QualityAspect::Duplication => 7,
        QualityAspect::R8 => 8,
    }
}

proof fn lemma_aspect_position(k: int)
    requires
        0 <= k < aspect_list().len(),
    ensures
        aspect_position(aspect_list()[k]) == k,
{
}

/// The settings that go to the orchestrator for `aspect`: its settings
/// when its command checks it.
pub open spec fn routed_external(configs: AspectMap, full_scope: bool, aspect: QualityAspect) -> Option<AspectConfig> {
    match configs.lookup(aspect) {
        Some(c) => if route_of(aspect, c, full_scope) == AspectRoute::External {
            Some(c)
        } else {
            None
        },
        None => None,
    }
}

/// The settings of every aspect of [`aspect_list`] for a run: the
/// configured ones merged over the detected ones.
pub fn merged_aspects(configured: &AspectMap, detected: &AspectMap) -> (r: AspectMap)
    ensures
        r.wf(),
        forall|a: QualityAspect| #[trigger] r.lookup(a) == Some(merged_config(configured.lookup(a), detected.lookup(a))),
{
    let order = all_aspects();
    let mut merged = AspectMap::new();
    let mut k: usize = 0;
    while k < order.len()
        invariant
            order@ == aspect_list(),
            0 <= k <= order@.len(),
            merged.wf(),
            forall|a: QualityAspect| #[trigger] merged.lookup(a) == (if aspect_position(a) < k {
                Some(merged_config(configured.lookup(a), detected.lookup(a)))
            } else {
                None
            }),
        decreases order@.len() - k,
    {
        let aspect = order[k];
        proof {
            lemma_aspect_position(k as int);
        }
        let config = merge_aspect_config(configured.get(&aspect), detected.get(&aspect));
        merged.insert(aspect, config);
        k = k + 1;
    }
    merged
}

/// The natively checked aspects among the first `n` of [`aspect_list`],
/// with their settings, in that order.
pub open spec fn routed_native(configs: AspectMap, full_scope: bool, n: int) -> Seq<(QualityAspect, AspectConfig)>
    decreases n,
{
    if n <= 0 {
        Seq::empty()
    } else {
        let prev = routed_native(configs, full_scope, n - 1);
        let a = aspect_list()[n - 1];
        match configs.lookup(a) {
            Some(c) => if route_of(a, c, full_scope) == AspectRoute::Native {
                prev.push((a, c))
            } else {
                prev
            },
            None => prev,
        }
    }
}

/// Splits the aspects of a run: those the library checks itself, with
/// their settings, in the order of [`all_aspects`], and the settings of
/// those whose commands the orchestrator runs.
pub fn route_aspects(configs: &AspectMap, full_scope: bool) -> (r: (Vec<(QualityAspect, AspectConfig)>, AspectMap))
    requires
        configs.wf(),
    ensures
        r.0@ == routed_native(*configs, full_scope, aspect_list().len() as int),
        r.1.wf(),
        forall|a: QualityAspect| #[trigger] r.1.lookup(a) == routed_external(*configs, full_scope, a),
{
    let order = all_aspects();
    let mut native: Vec<(QualityAspect, AspectConfig)> = Vec::new();
    let mut external = AspectMap::new();
    let mut k: usize = 0;
    while k < order.len()
        invariant
            order@ == aspect_list(),
            0 <= k <= order@.len(),
            external.wf(),
            native@ == routed_native(*configs, full_scope, k as int),
            forall|a: QualityAspect| #[trigger] external.lookup(a) == (if aspect_position(a) < k {
                routed_external(*configs, full_scope, a)
            } else {
                None
            }),
        decreases order@.len() - k,
    {
        let aspect = order[k];
        proof {
            lemma_aspect_position(k as int);
        }
        if let Some(config) = configs.get(&aspect) {
            match aspect_route(aspect, config, full_scope) {
                AspectRoute::Native => {
                    native.push((aspect, copy_aspect_config(config)));
                },
                AspectRoute::External => {
                    external.insert(aspect, copy_aspect_config(config));
                },
                AspectRoute::Skipped => {},
            }
        }
        k = k + 1;
    }
    (native, external)
}

/// The aspect has a command that is not blank.
pub open spec fn has_command_spec(c: AspectConfig) -> bool {
    c.command matches Some(s) && trim(s@).len() > 0
}

/// Whether the aspect has a command that is not blank.
pub fn has_command(config: &AspectConfig) -> (r: bool)
    ensures
        r == has_command_spec(*config),
{
    match &config.command {
        Some(s) => {
            let chars = chars_of(s.as_str());
            let bounds: (usize, usize) = trim_bounds(chars.as_slice());
            bounds.0 < bounds.1
        },
        None => false,
    }
}

/// The scope of a run: `diff`, or `full` (alias `all`).
pub open spec fn scope_is_full(scope: Seq<char>) -> Option<bool> {
    if scope == "diff"@ {
        Some(false)
    } else if scope == "full"@ || scope == "all"@ {
        Some(true)
    } else {
        None
    }
}

/// Whether the scope names a full run; an error naming the scope when it is
/// neither `diff`, `full` nor `all`.
pub fn parse_scope(scope: &str) -> (r: Result<bool, String>)
    ensures
        match r {
            Ok(full) => scope_is_full(scope@) == Some(full),
            Err(message) => scope_is_full(scope@) is None && message@ == "Unsupported analysis scope '"@ + scope@
                + "'. Expected 'diff' or 'full' (alias: 'all')."@,
        },
{
    let s = chars_of(scope);
    if chars_are(s.as_slice(), "diff") {
        return Ok(false);
    }
    if chars_are(s.as_slice(), "full") || chars_are(s.as_slice(), "all") {
        return Ok(true);
    }
    let mut message: Vec<char> = Vec::new();
    push_str(&mut message, "Unsupported analysis scope '");
    push_all(&mut message, s.as_slice());
    push_str(&mut message, "'. Expected 'diff' or 'full' (alias: 'all').");
    Err(string_of(message.as_slice()))
}

/// The languages a run analyses.
#[derive(Debug, Clone, Copy, PartialEq, Eq)]
pub struct LanguageTargets {
    pub java: bool,
    pub kotlin: bool,
}

/// The language a target names: `java`/`.java`, or `kotlin`/`.kt`, after
/// trimming and ignoring ASCII case.
pub open spec fn target_language(target: Seq<char>) -> Option<bool> {
    let t = lower(trim(target));
    if t == "java"@ || t == ".java"@ {
        Some(true)
    } else if t == "kotlin"@ || t == ".kt"@ {
        Some(false)
    } else {
        None
    }
}

/// The targets of the first `n` configured names, or the index of the first
/// name that is not a language.
pub open spec fn targets_from(targets: Seq<Seq<char>>, n: int) -> Result<(bool, bool), int>
    decreases n,
{
    if n <= 0 {
        Ok((false, false))
    } else {
        match targets_from(targets, n - 1) {
            Err(k) => Err(k),
            Ok(t) => match target_language(targets[n - 1]) {
                Some(true) => Ok((true, t.1)),
                Some(false) => Ok((t.0, true)),
                None => Err(n - 1),
            },
        }
    }
}

impl LanguageTargets {
    /// The targets configured by name; none configured means both
    /// languages.  An unknown name is an error that names it.
    pub fn from_config(targets: &[String]) -> (r: Result<Self, String>)
        ensures
            targets@.len() == 0 ==> r == Ok::<Self, String>(LanguageTargets { java: true, kotlin: true }),
            targets@.len() > 0 ==> match (r, targets_from(targets@.map_values(|s: String| s@), targets@.len() as int)) {
                (Ok(t), Ok(expected)) => t.java == expected.0 && t.kotlin == expected.1,
                (Err(message), Err(k)) => message@ == "Unsupported analysis target '"@ + targets@[k]@
                    + "'. Expected 'java' or 'kotlin'."@,
                _ => false,
            },
    {
        if targets.len() == 0 {
            return Ok(LanguageTargets { java: true, kotlin: true });
        }
        let ghost names = targets@.map_values(|s: String| s@);
        let mut result = LanguageTargets { java: false, kotlin: false };
        let mut k: usize = 0;
        while k < targets.len()
            invariant
                names == targets@.map_values(|s: String| s@),
                0 <= k <= targets@.len(),
                targets_from(names, k as int) == Ok::<(bool, bool), int>((result.java, result.kotlin)),
            decreases targets@.len() - k,
        {
            let name = chars_of(targets[k].as_str());
            let bounds: (usize, usize) = trim_bounds(name.as_slice());
            let trimmed = crate::syntax::slice_of(&name, bounds.0, bounds.1);
            proof {
                assert(names[k as int] == targets@[k as int]@);
            }
            if lower_is(trimmed, "java") || lower_is(trimmed, ".java") {
                result.java = true;
            } else if lower_is(trimmed, "kotlin") || lower_is(trimmed, ".kt") {
                result.kotlin = true;
            } else {
                let mut message: Vec<char> = Vec::new();
                push_str(&mut message, "Unsupported analysis target '");
                push_all(&mut message, name.as_slice());
                push_str(&mut message, "'. Expected 'java' or 'kotlin'.");
                proof {
                    lemma_targets_error_stays(names, k as int + 1, targets@.len() as int);
                }
                return Err(string_of(message.as_slice()));
            }
            k = k + 1;
        }
        Ok(result)
    }

    /// Whether files with `extension` (any ASCII case) are analysed.
    pub fn includes(self, extension: &str) -> (r: bool)
        ensures
            r == (if lower(extension@) == "java"@ {
                self.java
            } else if lower(extension@) == "kt"@ {
                self.kotlin
            } else {
                false
            }),
    {
        let e = chars_of(extension);
        if lower_is(e.as_slice(), "java") {
            self.java
        } else if lower_is(e.as_slice(), "kt") {
            self.kotlin
        } else {
            false
        }
    }
}

/// The first of `probes` from the `k`-th on whose project marker
/// (`build_script` false) or build-script flag (`build_script` true) is set.
pub open spec fn first_marked(probes: Seq<(bool, bool)>, build_script: bool, k: int) -> Option<int>
    decreases probes.len() - k,
{
    if k < 0 || k >= probes.len() {
        None
    } else if (if build_script {
        probes[k].1
    } else {
        probes[k].0
    }) {
        Some(k)
    } else {
        first_marked(probes, build_script, k + 1)
    }
}

/// The project root among candidate directories, nearest first, each probed
/// for a project marker (a `qgate.toml` entry or a valid Gradle wrapper) and
/// for a Gradle build script: the nearest with a marker, else the nearest
/// with a build script, else none.
pub open spec fn root_choice(probes: Seq<(bool, bool)>) -> Option<int> {
    match first_marked(probes, false, 0) {
        Some(i) => Some(i),
        None => first_marked(probes, true, 0),
    }
}

/// Chooses the project root among the probed candidate directories,
/// nearest first: the position of the nearest with a project marker, else
/// of the nearest with a Gradle build script.
pub fn choose_project_root(probes: &[(bool, bool)]) -> (r: Option<usize>)
    ensures
        r matches Some(i) ==> root_choice(probes@) == Some(i as int),
        r is None ==> root_choice(probes@) is None,
{
    let mut build_script_root: Option<usize> = None;
    let mut k: usize = 0;
    while k < probes.len()
        invariant
            0 <= k <= probes@.len(),
            first_marked(probes@, false, 0) == first_marked(probes@, false, k as int),
            match build_script_root {
                Some(b) => first_marked(probes@, true, 0) == Some(b as int),
                None => first_marked(probes@, true, 0) == first_marked(probes@, true, k as int),
            },
        decreases probes@.len() - k,
    {
        if probes[k].0 {
            return Some(k);
        }
        if build_script_root.is_none() && probes[k].1 {
            build_script_root = Some(k);
        }
        k = k + 1;
    }
    build_script_root
}

/// The language of a source file's extension, in any ASCII case:
/// `Some(true)` for `java`, `Some(false)` for `kt`.
pub open spec fn source_language(extension: Seq<char>) -> Option<bool> {
    if lower(extension) == "java"@ {
        Some(true)
    } else if lower(extension) == "kt"@ {
        Some(false)
    } else {
        None
    }
}

/// Whether `extension` is that of a Java (`Some(true)`) or Kotlin
/// (`Some(false)`) source.
pub fn source_language_of(extension: &str) -> (r: Option<bool>)
    ensures
        r == source_language(extension@),
{
    let e = chars_of(extension);
    if lower_is(e.as_slice(), "java") {
        Some(true)
    } else if lower_is(e.as_slice(), "kt") {
        Some(false)
    } else {
        None
    }
}

/// A source file ready for the rules: the path findings report, the text
/// and its syntax tree.
pub struct ParsedFile {
    pub path: String,
    pub code: String,
    pub tree: SyntaxTree,
}

/// Why a source file cannot be analysed.
#[derive(Debug, Clone, Copy, PartialEq, Eq)]
pub enum SourceError {
    /// The analyzer could not build a tree.
    Analyze(AnalyzeError),
    /// The tree holds error or missing nodes.
    SyntaxErrors,
}

/// Some reported node is an error or a missing node.
pub open spec fn records_report_error(records: Seq<NodeRecord>) -> bool {
    exists|i: int| 0 <= i < records.len() && ((#[trigger] records[i]).error || records[i].missing)
}

/// What parsing `code`, found at `path` under `root`, yields when the
/// grammar reported `reported` for it.
pub open spec fn parse_outcome(
    root: Seq<char>,
    path: Seq<char>,
    code: Seq<char>,
    reported: Option<Vec<NodeRecord>>,
    r: Result<Option<ParsedFile>, SourceError>,
) -> bool {
    match reported {
        None => r matches Err(SourceError::Analyze(AnalyzeError::ParseFailed)),
        Some(records) => if !(records_admissible(code, records@) && utf8_len(code) <= usize::MAX) {
            r matches Err(SourceError::Analyze(AnalyzeError::MalformedTree))
        } else if records_report_error(records@) {
            r matches Err(SourceError::SyntaxErrors)
        } else {
            r matches Ok(Some(f)) && f.path@ == report_path(root, path) && f.code@ == code
                && tree_models(&f.tree, code, records@)
        },
    }
}

proof fn lemma_tree_error_is_reported(t: &SyntaxTree, code: Seq<char>, records: Seq<NodeRecord>)
    requires
        tree_models(t, code, records),
    ensures
        t.has_error_spec() <==> records_report_error(records),
{
    if t.has_error_spec() {
        let i = choose|i: int| 0 <= i < t.nodes.len() && (#[trigger] t.nodes[i]).error;
        assert(records[i].error || records[i].missing);
    }
    if records_report_error(records) {
        let i = choose|i: int| 0 <= i < records.len() && ((#[trigger] records[i]).error || records[i].missing);
        assert(t.nodes[i].error);
    }
}

/// Parses `code`, read from `path` under `root`, with the analyzer its
/// extension selects.  Files that are neither Java nor Kotlin give
/// `Ok(None)`; a tree with syntax errors is refused.
pub fn parse_source(root: &str, path: &str, extension: &str, code: String) -> (r: Result<
    Option<ParsedFile>,
    SourceError,
>)
    ensures
        match source_language(extension@) {
            None => r matches Ok(None),
            Some(java) => parse_outcome(
                root@,
                path@,
                code@,
                if java { java_syntax(code@) } else { kotlin_syntax(code@) },
                r,
            ),
        },
{
    let language = source_language_of(extension);
    let java = match language {
        None => return Ok(None),
        Some(java) => java,
    };
    let analyzed = if java {
        JavaAnalyzer::new().analyze(code.as_str())
    } else {
        KotlinAnalyzer::new().analyze(code.as_str())
    };
    let ghost reported = if java { java_syntax(code@) } else { kotlin_syntax(code@) };
    match analyzed {
        Err(e) => Err(SourceError::Analyze(e)),
        Ok(tree) => {
            proof {
                let records = reported->Some_0;
                lemma_tree_error_is_reported(&tree, code@, records@);
            }
            if tree.has_error() {
                Err(SourceError::SyntaxErrors)
            } else {
                let report = relative_report_path(root, path);
                Ok(Some(ParsedFile { path: report, code, tree }))
            }
        },
    }
}

proof fn lemma_targets_error_stays(names: Seq<Seq<char>>, a: int, b: int)
    requires
        1 <= a <= b,
        targets_from(names, a) is Err,
    ensures
        targets_from(names, b) == targets_from(names, a),
    decreases b - a,
{
    if a < b {
        lemma_targets_error_stays(names, a, b - 1);
    }
}

/// The text of one component.
pub open spec fn component_text(c: Comp) -> Seq<char> {
    match c {
        Comp::Root => "/"@,
        Comp::Current => "."@,
        Comp::Parent => ".."@,
        Comp::Normal(n) => n,
    }
}

/// Components written out as a path: joined with `/`, with no separator
/// after the root.
pub open spec fn render_components(cs: Seq<Comp>) -> Seq<char>
    decreases cs.len(),
{
    if cs.len() == 0 {
        Seq::empty()
    } else {
        let init = render_components(cs.drop_last());
        let t = component_text(cs.last());
        if init.len() == 0 || init.last() == '/' {
            init + t
        } else {
            init + "/"@ + t
        }
    }
}

/// `s` with every `\` replaced by `/`.
pub open spec fn forward_slashes(s: Seq<char>) -> Seq<char> {
    s.map_values(|c: char| if c == '\\' { '/' } else { c })
}

/// The path a finding reports: `path` relative to `root` when it lies
/// below it (else `path` itself), with forward slashes.
pub open spec fn report_path(root: Seq<char>, path: Seq<char>) -> Seq<char> {
    forward_slashes(
        match strip_prefix(components(path), components(root)) {
            Some(rest) => render_components(rest),
            None => path,
        },
    )
}

/// The path a finding reports for `path` under `root`.
pub fn relative_report_path(root: &str, path: &str) -> (r: String)
    ensures
        r@ == report_path(root@, path@),
{
    let p = path_components(path);
    let q = path_components(root);
    let text: Vec<char> = match strip_components(&p, &q) {
        Some(rest) => {
            let mut out: Vec<char> = Vec::new();
            let mut k: usize = 0;
            while k < rest.len()
                invariant
                    0 <= k <= rest@.len(),
                    out@ == render_components(models(rest@).subrange(0, k as int)),
                decreases rest@.len() - k,
            {
                let ghost before = out@;
                let sep = out.len() > 0 && out[out.len() - 1] != '/';
                if sep {
                    push_str(&mut out, "/");
                }
                match &rest[k] {
                    PathComponent::Root => push_str(&mut out, "/"),
                    PathComponent::Current => push_str(&mut out, "."),
                    PathComponent::Parent => push_str(&mut out, ".."),
                    PathComponent::Normal(n) => push_all(&mut out, n.as_slice()),
                }
                proof {
                    let cs = models(rest@).subrange(0, k + 1);
                    assert(cs.drop_last() =~= models(rest@).subrange(0, k as int));
                    assert(cs.last() == rest@[k as int].model());
                }
                k = k + 1;
            }
            proof {
                assert(models(rest@).subrange(0, rest@.len() as int) =~= models(rest@));
            }
            out
        },
        None => chars_of(path),
    };
    let mut out: Vec<char> = Vec::new();
    let mut k: usize = 0;
    while k < text.len()
        invariant
            0 <= k <= text@.len(),
            out@ == forward_slashes(text@.subrange(0, k as int)),
        decreases text@.len() - k,
    {
        let c = text[k];
        out.push(if c == '\\' { '/' } else { c });
        assert(forward_slashes(text@.subrange(0, k + 1)) =~= forward_slashes(text@.subrange(0, k as int)).push(
            if c == '\\' { '/' } else { c },
        ));
        k = k + 1;
    }
    assert(text@.subrange(0, text@.len() as int) =~= text@);
    string_of(out.as_slice())
}

/// Why a configured baseline path is refused before it is resolved.
#[derive(Debug, Clone, PartialEq, Eq)]
pub enum BaselinePathError {
    /// The path is absolute.
    Absolute,
    /// The path holds a `.`, `..` or root component; it names the path.
    NotNormalized(String),
}

/// A path holds a `.`, `..` or root component.
pub open spec fn has_special_component(cs: Seq<Comp>) -> bool {
    exists|k: int| 0 <= k < cs.len() && !(#[trigger] cs[k] is Normal)
}

/// The trimmed baseline path, or why it is refused: it must be relative and
/// hold only normal components.
pub fn check_baseline_path(configured: &str) -> (r: Result<String, BaselinePathError>)
    ensures
        match r {
            Ok(p) => p@ == trim(configured@) && !(trim(configured@).len() > 0 && trim(configured@)[0] == '/')
                && !has_special_component(components(trim(configured@))),
            Err(BaselinePathError::Absolute) => trim(configured@).len() > 0 && trim(configured@)[0] == '/',
            Err(BaselinePathError::NotNormalized(p)) => p@ == trim(configured@) && !(trim(configured@).len() > 0
                && trim(configured@)[0] == '/') && has_special_component(components(trim(configured@))),
        },
{
    let chars = chars_of(configured);
    let bounds: (usize, usize) = trim_bounds(chars.as_slice());
    let trimmed = string_of(crate::syntax::slice_of(&chars, bounds.0, bounds.1));
    let t = chars_of(trimmed.as_str());
    if t.len() > 0 && t[0] == '/' {
        return Err(BaselinePathError::Absolute);
    }
    let cs = path_components(trimmed.as_str());
    let mut k: usize = 0;
    while k < cs.len()
        invariant
            models(cs@) == components(trimmed@),
            trimmed@ == trim(configured@),
            !(trimmed@.len() > 0 && trimmed@[0] == '/'),
            0 <= k <= cs@.len(),
            forall|j: int| 0 <= j < k ==> models(cs@)[j] is Normal,
        decreases cs@.len() - k,
    {
        let normal = match &cs[k] {
            PathComponent::Normal(_) => true,
            _ => false,
        };
        if !normal {
            proof {
                assert(!(models(cs@)[k as int] is Normal));
            }
            return Err(BaselinePathError::NotNormalized(trimmed));
        }
        k = k + 1;
    }
    Ok(trimmed)
}

/// The fingerprints a baseline lists, trimmed, blank ones dropped.
pub open spec fn listed_fingerprints(v: Seq<Seq<char>>) -> Set<Seq<char>> {
    Set::new(|f: Seq<char>| f.len() > 0 && exists|k: int| 0 <= k < v.len() && trim(#[trigger] v[k]) == f)
}

/// The suppressed fingerprints: those listed in the configuration and, when
/// a baseline file was read, those it lists; each trimmed, blank ones
/// dropped, each once.
pub fn baseline_fingerprints(configured: &[String], from_file: Option<&[String]>) -> (r: Vec<String>)
    ensures
        r@.map_values(|s: String| s@).to_set() == match from_file {
            Some(f) => listed_fingerprints(configured@.map_values(|s: String| s@)).union(
                listed_fingerprints(f@.map_values(|s: String| s@)),
            ),
            None => listed_fingerprints(configured@.map_values(|s: String| s@)),
        },
        r@.map_values(|s: String| s@).no_duplicates(),
{
    let mut out: Vec<String> = Vec::new();
    add_fingerprints(&mut out, configured);
    proof {
        assert(listed_fingerprints(Seq::<Seq<char>>::empty()) =~= Set::empty());
        assert(Set::<Seq<char>>::empty().union(listed_fingerprints(configured@.map_values(|s: String| s@)))
            =~= listed_fingerprints(configured@.map_values(|s: String| s@)));
    }
    match from_file {
        Some(f) => {
            add_fingerprints(&mut out, f);
        },
        None => {},
    }
    out
}

/// Adds the trimmed, non-blank fingerprints of `list` that `out` lacks.
fn add_fingerprints(out: &mut Vec<String>, list: &[String])
    requires
        old(out)@.map_values(|s: String| s@).no_duplicates(),
    ensures
        final(out)@.map_values(|s: String| s@).to_set() == old(out)@.map_values(|s: String| s@).to_set().union(
            listed_fingerprints(list@.map_values(|s: String| s@)),
        ),
        final(out)@.map_values(|s: String| s@).no_duplicates(),
{
    let ghost names = list@.map_values(|s: String| s@);
    let ghost start = old(out)@.map_values(|s: String| s@).to_set();
    let mut k: usize = 0;
    while k < list.len()
        invariant
            names == list@.map_values(|s: String| s@),
            start == old(out)@.map_values(|s: String| s@).to_set(),
            0 <= k <= list@.len(),
            out@.map_values(|s: String| s@).no_duplicates(),
            out@.map_values(|s: String| s@).to_set() == start.union(listed_fingerprints(names.subrange(0, k as int))),
        decreases list@.len() - k,
    {
        let chars = chars_of(list[k].as_str());
        let bounds: (usize, usize) = trim_bounds(chars.as_slice());
        let f = crate::syntax::slice_of(&chars, bounds.0, bounds.1);
        let ghost before = out@.map_values(|s: String| s@);
        proof {
            assert(names[k as int] == list@[k as int]@);
        }
        if f.len() > 0 {
            let mut present = false;
            let mut j: usize = 0;
            while j < out.len()
                invariant
                    0 <= j <= out@.len(),
                    before == out@.map_values(|s: String| s@),
                    present == (exists|q: int| 0 <= q < j && before[q] == f@),
                decreases out@.len() - j,
            {
                let same = chars_equal_string(f, &out[j]);
                proof {
                    assert(before[j as int] == out@[j as int]@);
                    if !same {
                        assert forall|q: int| 0 <= q < j + 1 && before[q] == f@ implies q < j by {}
                    }
                }
                if same {
                    present = true;
                }
                j = j + 1;
            }
            if !present {
                out.push(string_of(f));
                proof {
                    assert(out@.map_values(|s: String| s@) =~= before.push(f@));
                    assert forall|q: int| 0 <= q < before.len() implies before[q] != f@ by {}
                }
            } else {
                proof {
                    let q = choose|q: int| 0 <= q < j && before[q] == f@;
                    assert(before.to_set().contains(f@));
                }
            }
        }
        proof {
            let next = names.subrange(0, k + 1);
            let prev = names.subrange(0, k as int);
            assert(next[k as int] == names[k as int]);
            assert(listed_fingerprints(next) =~= if f@.len() > 0 {
                listed_fingerprints(prev).insert(f@)
            } else {
                listed_fingerprints(prev)
            }) by {
                assert forall|x: Seq<char>| listed_fingerprints(next).contains(x) implies (if f@.len() > 0 {
                    listed_fingerprints(prev).insert(f@)
                } else {
                    listed_fingerprints(prev)
                }).contains(x) by {
                    let q = choose|q: int| 0 <= q < next.len() && trim(#[trigger] next[q]) == x;
                    if q < k {
                        assert(prev[q] == next[q]);
                    }
                }
                assert forall|x: Seq<char>| listed_fingerprints(prev).contains(x) implies listed_fingerprints(next).contains(x) by {
                    let q = choose|q: int| 0 <= q < prev.len() && trim(#[trigger] prev[q]) == x;
                    assert(next[q] == prev[q]);
                }
                if f@.len() > 0 {
                    assert(trim(next[k as int]) == f@);
                }
            }
            let now = out@.map_values(|s: String| s@);
            assert(now.to_set() =~= start.union(listed_fingerprints(next))) by {
                assert forall|x: Seq<char>| now.to_set().contains(x) <==> before.to_set().contains(x) || (f@.len() > 0 && x == f@) by {
                    if now.to_set().contains(x) {
                        let q = choose|q: int| 0 <= q < now.len() && now[q] == x;
                        if q < before.len() {
                            assert(before[q] == x);
                        }
                    }
                    if before.to_set().contains(x) {
                        let q = choose|q: int| 0 <= q < before.len() && before[q] == x;
                        assert(now[q] == x);
                    }
                    if f@.len() > 0 && x == f@ && !before.to_set().contains(x) {
                        assert(now[now.len() - 1] == x);
                    }
                }
            }
        }
        k = k + 1;
    }
    proof {
        assert(names.subrange(0, list@.len() as int) =~= names);
    }
}

/// `v` without the entries whose fingerprint the baseline holds.
pub open spec fn unsuppressed(v: Seq<FindingView>, baseline: Set<Seq<char>>) -> Seq<FindingView> {
    v.filter(not_baselined(baseline))
}

/// The finding's fingerprint is not in the baseline.
pub open spec fn not_baselined(baseline: Set<Seq<char>>) -> spec_fn(FindingView) -> bool {
    |f: FindingView| !baseline.contains(f.5)
}

/// Filtering keeps a sequence whose every element passes.
proof fn lemma_filter_keeps_passing<A>(s: Seq<A>, p: spec_fn(A) -> bool)
    requires
        forall|i: int| 0 <= i < s.len() ==> p(#[trigger] s[i]),
    ensures
        s.filter(p) == s,
    decreases s.len(),
{
    reveal(Seq::filter);
    if s.len() > 0 {
        lemma_filter_keeps_passing(s.drop_last(), p);
        assert(s.drop_last().push(s.last()) =~= s);
    } else {
        assert(s.filter(p) =~= s);
    }
}

/// Baseline suppression: no finding that survives the baseline carries a
/// baselined fingerprint; every finding whose fingerprint is not baselined
/// survives; applying the baseline a second time changes nothing; and an
/// empty baseline keeps every finding.
pub proof fn lemma_baseline_suppression(v: Seq<FindingView>, baseline: Set<Seq<char>>)
    ensures
        forall|i: int|
            0 <= i < unsuppressed(v, baseline).len() ==> !baseline.contains(
                (#[trigger] unsuppressed(v, baseline)[i]).5,
            ),
        forall|i: int|
            0 <= i < v.len() && !baseline.contains((#[trigger] v[i]).5) ==> unsuppressed(
                v,
                baseline,
            ).contains(v[i]),
        unsuppressed(unsuppressed(v, baseline), baseline) == unsuppressed(v, baseline),
        unsuppressed(v, Set::empty()) == v,
{
    let p = not_baselined(baseline);
    v.filter_lemma(p);
    let kept = v.filter(p);
    assert forall|i: int| 0 <= i < kept.len() implies p(#[trigger] kept[i]) by {
        v.filter_lemma(p);
    }
    lemma_filter_keeps_passing(kept, p);
    lemma_filter_keeps_passing(v, not_baselined(Set::empty()));
}

/// `v` without the advisories whose fingerprint the baseline holds.
pub open spec fn unsuppressed_advisories(v: Seq<AdvisoryView>, baseline: Set<Seq<char>>) -> Seq<AdvisoryView> {
    v.filter(|a: AdvisoryView| !baseline.contains(a.3))
}

/// Whether the baseline holds `fingerprint`.
fn in_baseline(baseline: &Vec<String>, fingerprint: &String) -> (r: bool)
    ensures
        r == baseline@.map_values(|s: String| s@).to_set().contains(fingerprint@),
{
    let ghost m = baseline@.map_values(|s: String| s@);
    let f = chars_of(fingerprint.as_str());
    let mut k: usize = 0;
    while k < baseline.len()
        invariant
            m == baseline@.map_values(|s: String| s@),
            f@ == fingerprint@,
            0 <= k <= baseline@.len(),
            forall|j: int| 0 <= j < k ==> m[j] != fingerprint@,
        decreases baseline@.len() - k,
    {
        if chars_equal_string(f.as_slice(), &baseline[k]) {
            assert(m[k as int] == fingerprint@);
            return true;
        }
        k = k + 1;
    }
    proof {
        if m.to_set().contains(fingerprint@) {
            let j = choose|j: int| 0 <= j < m.len() && m[j] == fingerprint@;
        }
    }
    false
}

/// Drops the findings and advisories whose fingerprints the baseline holds,
/// keeping the others in order.
pub fn apply_baseline(violations: Vec<Violation>, notes: Vec<Advisory>, baseline: &Vec<String>) -> (r: (Vec<Violation>, Vec<Advisory>))
    ensures
        findings(r.0@) == unsuppressed(findings(violations@), baseline@.map_values(|s: String| s@).to_set()),
        advisories(r.1@) == unsuppressed_advisories(advisories(notes@), baseline@.map_values(|s: String| s@).to_set()),
{
    let ghost b = baseline@.map_values(|s: String| s@).to_set();
    let ghost fv = findings(violations@);
    let ghost av = advisories(notes@);
    let mut kept: Vec<Violation> = Vec::new();
    let mut rest = violations;
    let ghost mut done: int = 0;
    while rest.len() > 0
        invariant
            b == baseline@.map_values(|s: String| s@).to_set(),
            0 <= done <= fv.len(),
            findings(rest@) == fv.skip(done),
            findings(kept@) == unsuppressed(fv.take(done), b),
        decreases rest@.len(),
    {
        let ghost old_rest = rest@;
        let x = rest.remove(0);
        proof {
            assert(findings(old_rest).len() == old_rest.len());
            assert(fv.skip(done)[0] == fv[done]);
            assert(findings(old_rest)[0] == x@);
            assert(rest@ =~= old_rest.subrange(1, old_rest.len() as int));
            assert forall|q: int| 0 <= q < rest@.len() implies findings(rest@)[q] == fv.skip(done + 1)[q] by {
                assert(rest@[q] == old_rest[q + 1]);
                assert(findings(old_rest)[q + 1] == fv.skip(done)[q + 1]);
            }
            assert(findings(rest@) =~= fv.skip(done + 1));
            assert(fv.take(done + 1) =~= fv.take(done).push(x@));
            reveal(Seq::filter);
            assert(fv.take(done + 1).drop_last() =~= fv.take(done));
        }
        let ghost before = findings(kept@);
        if !in_baseline(baseline, &x.fingerprint) {
            kept.push(x);
            proof {
                assert(findings(kept@) =~= before.push(x@));
            }
        }
        proof {
            done = done + 1;
        }
    }
    proof {
        assert(fv.take(done) =~= fv);
    }
    let mut kept_notes: Vec<Advisory> = Vec::new();
    let mut rest = notes;
    let ghost mut done: int = 0;
    while rest.len() > 0
        invariant
            b == baseline@.map_values(|s: String| s@).to_set(),
            0 <= done <= av.len(),
            advisories(rest@) == av.skip(done),
            advisories(kept_notes@) == unsuppressed_advisories(av.take(done), b),
        decreases rest@.len(),
    {
        let ghost old_rest = rest@;
        let x = rest.remove(0);
        proof {
            assert(advisories(old_rest).len() == old_rest.len());
            assert(av.skip(done)[0] == av[done]);
            assert(advisories(old_rest)[0] == x@);
            assert(rest@ =~= old_rest.subrange(1, old_rest.len() as int));
            assert forall|q: int| 0 <= q < rest@.len() implies advisories(rest@)[q] == av.skip(done + 1)[q] by {
                assert(rest@[q] == old_rest[q + 1]);
                assert(advisories(old_rest)[q + 1] == av.skip(done)[q + 1]);
            }
            assert(advisories(rest@) =~= av.skip(done + 1));
            assert(av.take(done + 1) =~= av.take(done).push(x@));
            reveal(Seq::filter);
            assert(av.take(done + 1).drop_last() =~= av.take(done));
        }
        let ghost before = advisories(kept_notes@);
        if !in_baseline(baseline, &x.fingerprint) {
            kept_notes.push(x);
            proof {
                assert(advisories(kept_notes@) =~= before.push(x@));
            }
        }
        proof {
            done = done + 1;
        }
    }
    proof {
        assert(av.take(done) =~= av);
    }
    (kept, kept_notes)
}

/// What native findings of an aspect become: advisories when the aspect's
/// severity is `advisory`, else findings, reported as `warning` under
/// `warn` or `warning`.
pub open spec fn native_outcome(aspect: QualityAspect, c: AspectConfig, found: Seq<FindingView>) -> (Seq<FindingView>, Seq<AdvisoryView>) {
    if c.severity == Some(Severity::Advisory) {
        (
            Seq::empty(),
            found.map_values(|f: FindingView| (aspect, f.3, "Fix the reported "@ + aspect_name(aspect) + " finding."@, f.5)),
        )
    } else if c.severity == Some(Severity::Warn) || c.severity == Some(Severity::Warning) {
        (found.map_values(|f: FindingView| (f.0, f.1, f.2, f.3, "warning"@, f.5)), Seq::empty())
    } else {
        (found, Seq::empty())
    }
}

/// Adds the native findings of `aspect` to the run's findings or advisories.
pub fn add_native_findings(
    aspect: QualityAspect,
    config: &AspectConfig,
    violations: &mut Vec<Violation>,
    notes: &mut Vec<Advisory>,
    found: Vec<Violation>,
)
    ensures
        findings(final(violations)@) == findings(old(violations)@) + native_outcome(aspect, *config, findings(found@)).0,
        advisories(final(notes)@) == advisories(old(notes)@) + native_outcome(aspect, *config, findings(found@)).1,
{
    let ghost all = findings(found@);
    let advisory = config.severity == Some(Severity::Advisory);
    let warning = config.severity == Some(Severity::Warn) || config.severity == Some(Severity::Warning);
    let mut rest = found;
    let ghost mut done: int = 0;
    let ghost v0 = findings(violations@);
    let ghost n0 = advisories(notes@);
    while rest.len() > 0
        invariant
            0 <= done <= all.len(),
            findings(rest@) == all.skip(done),
            advisory == (config.severity == Some(Severity::Advisory)),
            warning == (config.severity == Some(Severity::Warn) || config.severity == Some(Severity::Warning)),
            findings(violations@) == v0 + native_outcome(aspect, *config, all.take(done)).0,
            advisories(notes@) == n0 + native_outcome(aspect, *config, all.take(done)).1,
        decreases rest@.len(),
    {
        let ghost old_rest = rest@;
        let x = rest.remove(0);
        proof {
            assert(findings(old_rest).len() == old_rest.len());
            assert(all.skip(done)[0] == all[done]);
            assert(findings(old_rest)[0] == x@);
            assert(rest@ =~= old_rest.subrange(1, old_rest.len() as int));
            assert forall|q: int| 0 <= q < rest@.len() implies findings(rest@)[q] == all.skip(done + 1)[q] by {
                assert(rest@[q] == old_rest[q + 1]);
                assert(findings(old_rest)[q + 1] == all.skip(done)[q + 1]);
            }
            assert(findings(rest@) =~= all.skip(done + 1));
            assert(all.take(done + 1) =~= all.take(done).push(x@));
        }
        let ghost vb = findings(violations@);
        let ghost nb = advisories(notes@);
        if advisory {
            let mut rec: Vec<char> = Vec::new();
            push_str(&mut rec, "Fix the reported ");
            push_str(&mut rec, aspect.name());
            push_str(&mut rec, " finding.");
            let a = Advisory { aspect, message: x.message, recommendation: string_of(rec.as_slice()), fingerprint: x.fingerprint };
            notes.push(a);
            proof {
                assert(advisories(notes@) =~= nb.push(a@));
                assert(native_outcome(aspect, *config, all.take(done + 1)).1 =~= native_outcome(aspect, *config, all.take(done)).1.push(a@));
                assert(native_outcome(aspect, *config, all.take(done + 1)).0 =~= native_outcome(aspect, *config, all.take(done)).0);
            }
        } else {
            let mut v = x;
            if warning {
                v.severity = "warning".to_owned();
            }
            violations.push(v);
            proof {
                assert(findings(violations@) =~= vb.push(v@));
                assert(native_outcome(aspect, *config, all.take(done + 1)).0 =~= native_outcome(aspect, *config, all.take(done)).0.push(v@));
                assert(native_outcome(aspect, *config, all.take(done + 1)).1 =~= native_outcome(aspect, *config, all.take(done)).1);
            }
        }
        proof {
            done = done + 1;
        }
    }
    proof {
        assert(all.take(done) =~= all);
        assert(native_outcome(aspect, *config, Seq::<FindingView>::empty()).0 =~= Seq::empty());
    }
}

} // verus!
