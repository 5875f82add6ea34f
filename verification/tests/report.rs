use qgate::analyzer::{JavaAnalyzer, LanguageAnalyzer};
use qgate::config::{Advisory, AspectConfig, GodClassConfig, LayerMap, QualityAspect, Severity};
use qgate::report::audit_report;
use qgate::rules::god_class::GodClassRule;
use qgate::rules::layers::LayerRule;
use qgate::rules::Violation;
use qgate::syntax::SyntaxTree;

#[test]
fn the_report_joins_rules_native_aspects_and_commands_under_the_baseline() {
    let code = "class Big {\n    private void unused() {}\n    void a() {}\n}";
    let tree = JavaAnalyzer::new().analyze(code).unwrap();
    let files: Vec<(&str, &str, &SyntaxTree)> = vec![("src/Big.java", code, &tree)];
    let god_class = GodClassRule::new(GodClassConfig { max_methods: 1, max_loc: 100 });
    let layers = LayerRule::new(LayerMap::new());
    let native = vec![(
        QualityAspect::DeadCode,
        AspectConfig { command: None, stage: None, timeout_secs: None, severity: Some(Severity::Warning), enabled: None },
    )];
    let external_violation = Violation {
        file: ".".to_string(),
        line: 0,
        rule: "aspect:lint".to_string(),
        message: "Quality aspect lint failed: boom".to_string(),
        severity: "error".to_string(),
        fingerprint: "aspect:lint".to_string(),
    };
    let external_advisory = Advisory {
        aspect: QualityAspect::Style,
        message: "No command is configured for the style quality aspect.".to_string(),
        recommendation: "Configure a command for style in qgate.toml or install its tooling.".to_string(),
        fingerprint: "aspect:style:missing-command".to_string(),
    };
    let baseline = vec!["aspect:lint".to_string()];
    let (violations, advisories) =
        audit_report(&files, &god_class, &layers, &native, (vec![external_violation], vec![external_advisory]), &baseline);

    let rules: Vec<&str> = violations.iter().map(|v| v.rule.as_str()).collect();
    assert_eq!(rules, vec!["god_class", "dead_code"]);
    assert_eq!(violations[1].severity, "warning");
    assert_eq!(violations[1].fingerprint, "src/Big.java:dead_code:function:Big:function:unused:0");
    assert_eq!(advisories.len(), 1);
    assert_eq!(advisories[0].fingerprint, "aspect:style:missing-command");
}
