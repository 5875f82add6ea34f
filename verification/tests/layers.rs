use qgate::analyzer::{JavaAnalyzer, LanguageAnalyzer};
use qgate::config::LayerMap;
use qgate::rules::layers::LayerRule;
use qgate::rules::Rule;

#[test]
fn test_layer_violation_java() {
    let mut layers = LayerMap::new();
    layers.insert("ui".to_string(), vec!["domain".to_string()]);
    layers.insert("domain".to_string(), vec![]);

    let rule = LayerRule::new(layers);
    let analyzer = JavaAnalyzer::new();

    let code = "package com.example.domain;\nimport com.example.ui.Widget;\nclass Service {}";
    let tree = analyzer.analyze(code).unwrap();
    let violations = rule.check("src/domain/Service.java", code, &tree);

    assert_eq!(violations.len(), 1);
    assert!(violations[0]
        .message
        .contains("Layer 'domain' is not allowed to import from layer 'ui'"));
}

#[test]
fn test_layer_allowed_java() {
    let mut layers = LayerMap::new();
    layers.insert("ui".to_string(), vec!["domain".to_string()]);

    let rule = LayerRule::new(layers);
    let analyzer = JavaAnalyzer::new();

    let code = "package com.example.ui;\nimport com.example.domain.Model;\nclass Activity {}";
    let tree = analyzer.analyze(code).unwrap();
    let violations = rule.check("src/ui/Activity.java", code, &tree);

    assert_eq!(violations.len(), 0);
}

#[test]
fn layer_finding_is_exact_and_layer_lookup_splits_paths() {
    let mut layers = LayerMap::new();
    layers.insert("domain".to_string(), vec![]);
    layers.insert("ui".to_string(), vec![]);
    let rule = LayerRule::new(layers);
    assert_eq!(rule.get_layer_for_path("src/domain/Service.java"), Some("domain".to_string()));
    assert_eq!(rule.get_layer_for_path("src/other/x.ui"), Some("ui".to_string()));
    assert_eq!(rule.get_layer_for_path("src/other/Service.java"), None);
    assert_eq!(rule.get_layer_for_import("com.example.ui.Widget"), Some("ui".to_string()));
    let code = "package com.example.domain;\nimport com.example.ui.Widget;\nclass Service {}";
    let tree = JavaAnalyzer::new().analyze(code).unwrap();
    let violations = rule.check("src/domain/Service.java", code, &tree);
    assert_eq!(violations.len(), 1);
    assert_eq!(violations[0].line, 2);
    assert_eq!(violations[0].rule, "layering");
    assert_eq!(
        violations[0].message,
        "Layer violation: Layer 'domain' is not allowed to import from layer 'ui' (import: com.example.ui.Widget)"
    );
    assert_eq!(violations[0].fingerprint, "src/domain/Service.java:layering:domain:ui");
}

#[test]
fn a_layer_allowed_every_other_layer_reports_nothing() {
    let mut layers = LayerMap::new();
    layers.insert("ui".to_string(), vec!["domain".to_string(), "data".to_string()]);
    layers.insert("domain".to_string(), vec!["data".to_string()]);
    layers.insert("data".to_string(), vec![]);
    let rule = LayerRule::new(layers);
    let code = "package com.example.ui;\nimport com.example.domain.Service;\nimport com.example.data.Store;\nimport com.example.ui.Other;\nclass Screen {}";
    let tree = JavaAnalyzer::new().analyze(code).unwrap();
    assert!(rule.check("src/ui/Screen.java", code, &tree).is_empty());

    let code = "package com.example.data;\nimport com.example.ui.Screen;\nimport com.example.domain.Service;\nclass Store {}";
    let tree = JavaAnalyzer::new().analyze(code).unwrap();
    let found = rule.check("src/data/Store.java", code, &tree);
    let fingerprints: Vec<&str> = found.iter().map(|v| v.fingerprint.as_str()).collect();
    assert_eq!(fingerprints, vec!["src/data/Store.java:layering:data:ui", "src/data/Store.java:layering:data:domain"]);
}
