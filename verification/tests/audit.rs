use qgate::audit::choose_project_root;
use qgate::audit::{
    add_native_findings, all_aspects, apply_baseline, baseline_fingerprints, check_baseline_path, default_stage,
    has_command, is_native_aspect, merge_aspect_config, parse_scope, relative_report_path, should_run_aspect,
    BaselinePathError, LanguageTargets,
};
use qgate::audit::{aspect_route, merged_aspects, parse_source, route_aspects, source_language_of, AspectRoute, SourceError};
use qgate::config::AspectMap;
use qgate::config::{Advisory, AspectConfig, QualityAspect, Severity, Stage};
use qgate::rules::Violation;

fn violation(fingerprint: &str, severity: &str) -> Violation {
    Violation {
        file: "A.java".to_string(),
        line: 1,
        rule: "dead_code".to_string(),
        message: "m".to_string(),
        severity: severity.to_string(),
        fingerprint: fingerprint.to_string(),
    }
}

#[test]
fn configured_fields_override_detected_ones() {
    let detected = AspectConfig {
        command: Some("./gradlew lintDebug".to_string()),
        timeout_secs: Some(10),
        ..Default::default()
    };
    let configured = AspectConfig { severity: Some(Severity::Warn), timeout_secs: Some(30), ..Default::default() };
    let merged = merge_aspect_config(Some(&configured), Some(&detected));
    assert_eq!(merged.command.as_deref(), Some("./gradlew lintDebug"));
    assert_eq!(merged.timeout_secs, Some(30));
    assert_eq!(merged.severity, Some(Severity::Warn));
    assert_eq!(merge_aspect_config(None, None), AspectConfig::default());
    assert_eq!(merge_aspect_config(None, Some(&detected)), detected);
}

#[test]
fn stages_and_scopes_decide_what_runs() {
    assert_eq!(all_aspects().len(), 9);
    assert!(is_native_aspect(QualityAspect::DeadCode));
    assert!(!is_native_aspect(QualityAspect::Lint));
    assert_eq!(default_stage(QualityAspect::Lint), Stage::PreCommit);
    assert_eq!(default_stage(QualityAspect::UnitTest), Stage::PrePush);
    let plain = AspectConfig::default();
    assert!(should_run_aspect(QualityAspect::Style, &plain, false));
    assert!(!should_run_aspect(QualityAspect::Build, &plain, false));
    assert!(should_run_aspect(QualityAspect::Build, &plain, true));
    let off = AspectConfig { enabled: Some(false), ..Default::default() };
    assert!(!should_run_aspect(QualityAspect::Style, &off, true));
    let pushed = AspectConfig { stage: Some(Stage::PrePush), ..Default::default() };
    assert!(!should_run_aspect(QualityAspect::Style, &pushed, false));
    assert!(!has_command(&AspectConfig { command: Some("  ".to_string()), ..Default::default() }));
    assert!(has_command(&AspectConfig { command: Some("x".to_string()), ..Default::default() }));
    assert_eq!(parse_scope("all"), Ok(true));
    assert_eq!(parse_scope("diff"), Ok(false));
    assert_eq!(
        parse_scope("partial"),
        Err("Unsupported analysis scope 'partial'. Expected 'diff' or 'full' (alias: 'all').".to_string())
    );
}

#[test]
fn language_targets_read_names_and_extensions() {
    let both = LanguageTargets::from_config(&[]).unwrap();
    assert!(both.java && both.kotlin);
    let kotlin = LanguageTargets::from_config(&[" Kotlin ".to_string()]).unwrap();
    assert!(!kotlin.java && kotlin.kotlin);
    assert!(kotlin.includes("KT"));
    assert!(!kotlin.includes("java"));
    assert_eq!(
        LanguageTargets::from_config(&[".java".to_string(), "scala".to_string()]),
        Err("Unsupported analysis target 'scala'. Expected 'java' or 'kotlin'.".to_string())
    );
}

#[test]
fn report_paths_are_relative_with_forward_slashes() {
    assert_eq!(relative_report_path("/work/project", "/work/project/src/A.java"), "src/A.java");
    assert_eq!(relative_report_path("/work/project", "/elsewhere/B.kt"), "/elsewhere/B.kt");
    assert_eq!(relative_report_path("/work", "/work/dir\\C.java"), "dir/C.java");
}

#[test]
fn baseline_paths_must_be_normalized_relative_paths() {
    assert_eq!(check_baseline_path(" qgate-baseline.json "), Ok("qgate-baseline.json".to_string()));
    assert_eq!(check_baseline_path("/etc/baseline.json"), Err(BaselinePathError::Absolute));
    assert_eq!(
        check_baseline_path("../baseline.json"),
        Err(BaselinePathError::NotNormalized("../baseline.json".to_string()))
    );
    assert_eq!(check_baseline_path("a/./b.json"), Ok("a/./b.json".to_string()));
}

#[test]
fn baseline_suppresses_matching_fingerprints_only() {
    let inline = vec![" keep-me ".to_string(), "".to_string(), "a".to_string()];
    let from_file = vec!["b".to_string(), "a".to_string()];
    let baseline = baseline_fingerprints(&inline, Some(&from_file));
    assert_eq!(baseline, vec!["keep-me".to_string(), "a".to_string(), "b".to_string()]);
    let violations = vec![violation("a", "error"), violation("c", "error"), violation("keep-me", "error")];
    let advisories = vec![Advisory {
        aspect: QualityAspect::Style,
        message: "m".to_string(),
        recommendation: "r".to_string(),
        fingerprint: "b".to_string(),
    }];
    let (kept, kept_advisories) = apply_baseline(violations, advisories, &baseline);
    assert_eq!(kept.len(), 1);
    assert_eq!(kept[0].fingerprint, "c");
    assert!(kept_advisories.is_empty());
}

#[test]
fn native_findings_follow_the_aspect_severity() {
    let mut violations = Vec::new();
    let mut advisories = Vec::new();
    let warn = AspectConfig { severity: Some(Severity::Warning), ..Default::default() };
    add_native_findings(QualityAspect::DeadCode, &warn, &mut violations, &mut advisories, vec![violation("x", "error")]);
    assert_eq!(violations[0].severity, "warning");
    let advisory = AspectConfig { severity: Some(Severity::Advisory), ..Default::default() };
    add_native_findings(QualityAspect::Duplication, &advisory, &mut violations, &mut advisories, vec![violation("y", "error")]);
    assert_eq!(violations.len(), 1);
    assert_eq!(advisories.len(), 1);
    assert_eq!(advisories[0].recommendation, "Fix the reported duplication finding.");
    assert_eq!(advisories[0].fingerprint, "y");
}

fn config(command: Option<&str>, stage: Option<Stage>, severity: Option<Severity>, enabled: Option<bool>) -> AspectConfig {
    AspectConfig { command: command.map(String::from), stage, timeout_secs: None, severity, enabled }
}

#[test]
fn native_aspects_without_a_command_are_checked_natively() {
    let plain = config(None, None, None, None);
    assert_eq!(aspect_route(QualityAspect::DeadCode, &plain, false), AspectRoute::Native);
    assert_eq!(aspect_route(QualityAspect::Duplication, &plain, true), AspectRoute::Native);
    let commanded = config(Some("./gradlew detekt"), None, None, None);
    assert_eq!(aspect_route(QualityAspect::DeadCode, &commanded, false), AspectRoute::External);
    assert_eq!(aspect_route(QualityAspect::Lint, &plain, false), AspectRoute::External);
    let blank = config(Some("   "), None, None, None);
    assert_eq!(aspect_route(QualityAspect::DeadCode, &blank, false), AspectRoute::Native);
    let off = config(None, None, None, Some(false));
    assert_eq!(aspect_route(QualityAspect::DeadCode, &off, true), AspectRoute::Skipped);
}

#[test]
fn full_scope_runs_pre_push_checks_that_diff_scope_skips() {
    let mut configs = AspectMap::new();
    configs.insert(QualityAspect::Lint, config(Some("lint"), Some(Stage::PreCommit), None, None));
    configs.insert(QualityAspect::UnitTest, config(Some("unit"), Some(Stage::PrePush), None, None));
    configs.insert(QualityAspect::DeadCode, config(None, None, None, None));
    configs.insert(QualityAspect::Build, config(Some("build"), None, Some(Severity::Ignore), None));

    let (native, external) = route_aspects(&configs, false);
    assert_eq!(native.iter().map(|entry| entry.0).collect::<Vec<_>>(), vec![QualityAspect::DeadCode]);
    assert!(external.contains_key(&QualityAspect::Lint));
    assert!(!external.contains_key(&QualityAspect::UnitTest));
    assert!(!external.contains_key(&QualityAspect::Build));
    assert_eq!(external.len(), 1);

    let (native, external) = route_aspects(&configs, true);
    assert_eq!(native.len(), 1);
    assert!(external.contains_key(&QualityAspect::Lint));
    assert!(external.contains_key(&QualityAspect::UnitTest));
    assert!(!external.contains_key(&QualityAspect::Build));
    assert_eq!(external.len(), 2);
}

#[test]
fn every_aspect_gets_merged_settings() {
    let mut configured = AspectMap::new();
    configured.insert(QualityAspect::Lint, config(None, None, Some(Severity::Warning), None));
    let mut detected = AspectMap::new();
    detected.insert(QualityAspect::Lint, config(Some("./gradlew lintDebug"), None, None, None));
    let merged = merged_aspects(&configured, &detected);
    assert_eq!(merged.len(), 9);
    let lint = merged.get(&QualityAspect::Lint).unwrap();
    assert_eq!(lint.command.as_deref(), Some("./gradlew lintDebug"));
    assert_eq!(lint.severity, Some(Severity::Warning));
    let style = merged.get(&QualityAspect::Style).unwrap();
    assert!(style.command.is_none() && style.severity.is_none());
}

#[test]
fn sources_are_parsed_by_extension() {
    assert_eq!(source_language_of("java"), Some(true));
    assert_eq!(source_language_of("KT"), Some(false));
    assert_eq!(source_language_of("kts"), None);

    let parsed = parse_source("/repo", "/repo/src/App.java", "java", "class App {}".to_string()).unwrap().unwrap();
    assert_eq!(parsed.path, "src/App.java");
    assert_eq!(parsed.code, "class App {}");
    assert!(!parsed.tree.has_error());

    let kotlin = parse_source("/repo", "/repo/App.kt", "kt", "class App".to_string()).unwrap().unwrap();
    assert_eq!(kotlin.path, "App.kt");

    assert!(parse_source("/repo", "/repo/notes.txt", "txt", "hello".to_string()).unwrap().is_none());
}

#[test]
fn sources_with_syntax_errors_are_refused() {
    let result = parse_source("/repo", "/repo/Broken.kt", "kt", "class {{{ fun".to_string());
    assert!(matches!(result, Err(SourceError::SyntaxErrors)));
}

#[test]
fn applying_the_baseline_twice_changes_nothing() {
    let baseline = vec!["keep-out".to_string()];
    let found = vec![violation("keep-out", "error"), violation("a", "error"), violation("b", "warning")];
    let (once, _) = apply_baseline(found, Vec::new(), &baseline);
    assert_eq!(once.iter().map(|v| v.fingerprint.as_str()).collect::<Vec<_>>(), vec!["a", "b"]);
    let (twice, _) = apply_baseline(once.clone(), Vec::new(), &baseline);
    assert_eq!(twice, once);
    let (none_removed, _) = apply_baseline(once.clone(), Vec::new(), &Vec::new());
    assert_eq!(none_removed, once);
}

#[test]
fn the_nearest_marked_directory_is_the_project_root() {
    assert_eq!(choose_project_root(&[(false, false), (false, true), (true, false), (true, true)]), Some(2));
    assert_eq!(choose_project_root(&[(false, false), (false, true), (false, true)]), Some(1));
    assert_eq!(choose_project_root(&[(false, true), (true, false)]), Some(1));
    assert_eq!(choose_project_root(&[(false, false), (false, false)]), None);
    assert_eq!(choose_project_root(&[]), None);
}

#[test]
fn r8_is_a_pre_push_aspect_run_by_its_command() {
    assert_eq!(QualityAspect::R8.to_string(), "r8");
    assert_eq!(default_stage(QualityAspect::R8), Stage::PrePush);
    assert!(!is_native_aspect(QualityAspect::R8));
    let r8 = config(Some("./gradlew minifyReleaseWithR8"), None, None, Some(true));
    assert_eq!(aspect_route(QualityAspect::R8, &r8, false), AspectRoute::Skipped);
    assert_eq!(aspect_route(QualityAspect::R8, &r8, true), AspectRoute::External);
    assert_eq!(all_aspects().last(), Some(&QualityAspect::R8));
}
