use qgate::analyzer::{JavaAnalyzer, KotlinAnalyzer, LanguageAnalyzer};
use qgate::config::GodClassConfig;
use qgate::rules::god_class::GodClassRule;
use qgate::rules::Rule;

#[test]
fn test_java_god_class_methods() {
    let config = GodClassConfig { max_methods: 2, max_loc: 100 };
    let rule = GodClassRule::new(config);
    let analyzer = JavaAnalyzer::new();
    let code = r#"
            class LargeClass {
                void m1() {}
                void m2() {}
                void m3() {}
            }
        "#;
    let tree = analyzer.analyze(code).unwrap();
    let violations = rule.check("Test.java", code, &tree);
    assert_eq!(violations.len(), 1);
    assert!(violations[0].message.contains("has 3 methods"));
}

#[test]
fn test_java_god_class_loc() {
    let config = GodClassConfig { max_methods: 10, max_loc: 5 };
    let rule = GodClassRule::new(config);
    let analyzer = JavaAnalyzer::new();
    let code = "class LongClass {\n\n\n\n\n\n}";
    let tree = analyzer.analyze(code).unwrap();
    let violations = rule.check("Test.java", code, &tree);
    assert_eq!(violations.len(), 1);
    assert!(violations[0].message.contains("spans 7 lines"));
}

#[test]
fn test_kotlin_god_class_methods() {
    let config = GodClassConfig { max_methods: 1, max_loc: 100 };
    let rule = GodClassRule::new(config);
    let analyzer = KotlinAnalyzer::new();
    let code = r#"
            class KotlinGod {
                fun f1() {}
                fun f2() {}
            }
        "#;
    let tree = analyzer.analyze(code).unwrap();
    let violations = rule.check("Test.kt", code, &tree);
    assert_eq!(violations.len(), 1);
    assert!(violations[0].message.contains("has 2 methods"));
}

#[test]
fn test_kotlin_god_class_loc() {
    let config = GodClassConfig { max_methods: 10, max_loc: 3 };
    let rule = GodClassRule::new(config);
    let analyzer = KotlinAnalyzer::new();
    let code = "class LongKotlin {\n\n\n\n}";
    let tree = analyzer.analyze(code).unwrap();
    let violations = rule.check("Test.kt", code, &tree);
    assert_eq!(violations.len(), 1);
    assert!(violations[0].message.contains("spans 5 lines"));
}

#[test]
fn test_nested_classes_methods() {
    let config = GodClassConfig { max_methods: 2, max_loc: 100 };
    let rule = GodClassRule::new(config);
    let analyzer = JavaAnalyzer::new();
    let code = r#"
            class Outer {
                void m1() {}
                class Inner {
                    void m2() {}
                    void m3() {}
                }
            }
        "#;
    let tree = analyzer.analyze(code).unwrap();
    let violations = rule.check("Test.java", code, &tree);
    assert_eq!(violations.len(), 0, "Should not count methods in nested classes for the outer class");
}

#[test]
fn god_class_findings_are_exact() {
    let rule = GodClassRule::new(GodClassConfig { max_methods: 0, max_loc: 1 });
    let code = "class Big {\n    void a() {}\n}";
    let tree = JavaAnalyzer::new().analyze(code).unwrap();
    let violations = rule.check("src/Big.java", code, &tree);
    assert_eq!(violations.len(), 2);
    assert_eq!(violations[0].message, "Class 'Big' has 1 methods (max 0)");
    assert_eq!(violations[0].fingerprint, "src/Big.java:god_class:Big:methods");
    assert_eq!(violations[1].message, "Class 'Big' spans 3 lines (max 1)");
    assert_eq!(violations[1].fingerprint, "src/Big.java:god_class:Big:loc");
    assert_eq!(violations[1].line, 1);
    assert_eq!(violations[1].rule, "god_class");
    assert!(rule.check("src/Big.txt", code, &tree).is_empty());
}

#[test]
fn looser_limits_report_no_more_classes() {
    let analyzer = JavaAnalyzer::new();
    let code = "class Big {\n    void a() {}\n    void b() {}\n    void c() {}\n}\nclass Small {\n    void a() {}\n}";
    let tree = analyzer.analyze(code).unwrap();
    let strict = GodClassRule::new(GodClassConfig { max_methods: 0, max_loc: 1 }).check("A.java", code, &tree);
    let middle = GodClassRule::new(GodClassConfig { max_methods: 2, max_loc: 4 }).check("A.java", code, &tree);
    let loose = GodClassRule::new(GodClassConfig { max_methods: 10, max_loc: 100 }).check("A.java", code, &tree);
    assert_eq!(strict.len(), 4);
    assert_eq!(middle.len(), 2);
    assert_eq!(loose.len(), 0);
    assert!(middle.iter().all(|v| v.fingerprint.starts_with("A.java:god_class:Big:")));
}

#[test]
fn language_checkers_apply_their_own_grammar() {
    let config = GodClassConfig { max_methods: 1, max_loc: 100 };
    let rule = GodClassRule::new(config);
    let java = "class J {\n    void a() {}\n    void b() {}\n}";
    let java_tree = JavaAnalyzer::new().analyze(java).unwrap();
    assert_eq!(rule.check_java("J.java", java, &java_tree).len(), 1);
    let kotlin = "class K {\n    fun a() {}\n    fun b() {}\n}";
    let kotlin_tree = KotlinAnalyzer::new().analyze(kotlin).unwrap();
    assert_eq!(rule.check_kotlin("K.kt", kotlin, &kotlin_tree).len(), 1);
    assert_eq!(rule.check("K.txt", kotlin, &kotlin_tree).len(), 0);
}

#[test]
fn moving_a_source_down_moves_its_findings_down() {
    let rule = GodClassRule::new(GodClassConfig { max_methods: 1, max_loc: 3 });
    let code = "class Big {\n    void a() {}\n    void b() {}\n}";
    let moved = format!("\n\n\n{code}");
    let analyzer = JavaAnalyzer::new();
    let before = rule.check("Big.java", code, &analyzer.analyze(code).unwrap());
    let after = rule.check("Big.java", &moved, &analyzer.analyze(&moved).unwrap());
    assert_eq!(before.len(), 2);
    assert_eq!(after.len(), before.len());
    for (b, a) in before.iter().zip(after.iter()) {
        assert_eq!(a.line, b.line + 3);
        assert_eq!(a.message, b.message);
        assert_eq!(a.fingerprint, b.fingerprint);
        assert_eq!(a.rule, b.rule);
        assert_eq!(a.severity, b.severity);
    }
}
