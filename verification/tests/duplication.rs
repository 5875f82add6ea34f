use qgate::analyzer::{JavaAnalyzer, KotlinAnalyzer, LanguageAnalyzer};
use qgate::rules::duplication::DuplicationRule;
use qgate::rules::Violation;
use qgate::syntax::SyntaxTree;

#[test]
fn reports_a_structural_clone_across_java_files() {
    let first = r#"class First {
    void calculate() {
        int total = 0;
        total += 1;
        total += 2;
        total += 3;
        total += 4;
        total += 5;
        total += 6;
        System.out.println(total);
    }
}
"#;
    let second = r#"class Second {
    void process() {
        int total = 0;
        total += 1;
        total += 2;
        total += 3;
        total += 4;
        total += 5;
        total += 6;
        System.out.println(total);
    }
}
"#;
    let analyzer = JavaAnalyzer::new();
    let first_tree = analyzer.analyze(first).unwrap();
    let second_tree = analyzer.analyze(second).unwrap();
    let files = [("First.java", first, &first_tree), ("Second.java", second, &second_tree)];

    let findings: Vec<Violation> = DuplicationRule::new().check_files(&files);

    assert_eq!(findings.len(), 1);
    let finding = &findings[0];
    assert_eq!(finding.rule, "duplication");
    assert!(finding.file.contains("First.java"));
    assert!(finding.message.contains("First.java"));
    assert!(finding.message.contains("Second.java"));
    assert!(finding.message.contains("range"));
    assert!(!finding.fingerprint.is_empty());
}

#[test]
fn ignores_a_single_file_and_short_blocks() {
    let code = r#"class OnlyOne {
    void shortBlock() {
        int total = 0;
        total += 1;
        total += 2;
    }
}
"#;
    let tree = JavaAnalyzer::new().analyze(code).unwrap();
    let files = [("OnlyOne.java", code, &tree)];

    let findings = DuplicationRule::new().check_files(&files);

    assert!(findings.is_empty());
}

#[test]
fn accepts_thirty_tokens_even_when_the_clone_is_under_ten_lines() {
    let first = r#"class First { void run() {
        int a = 1; int b = 2; int c = 3; int d = 4;
        int e = 5; int f = 6; int g = 7; int h = 8;
        int i = 9; int j = 10;
    } }
"#;
    let second = first.replace("First", "Second");
    let analyzer = JavaAnalyzer::new();
    let first_tree = analyzer.analyze(first).unwrap();
    let second_tree = analyzer.analyze(&second).unwrap();
    let files = [("First.java", first, &first_tree), ("Second.java", second.as_str(), &second_tree)];

    assert_eq!(DuplicationRule::new().check_files(&files).len(), 1);
}

#[test]
fn accepts_a_low_token_clone_that_spans_ten_lines() {
    let first = "class First {\n    void run() {\n        ;\n        ;\n        ;\n        ;\n        ;\n        ;\n        ;\n        ;\n        ;\n        ;\n    }\n}\n";
    let second = first.replace("First", "Second");
    let analyzer = JavaAnalyzer::new();
    let first_tree = analyzer.analyze(first).unwrap();
    let second_tree = analyzer.analyze(&second).unwrap();
    let files = [("First.java", first, &first_tree), ("Second.java", second.as_str(), &second_tree)];

    assert_eq!(DuplicationRule::new().check_files(&files).len(), 1);
}

#[test]
fn literal_values_and_comments_do_not_change_structural_matching() {
    let first = r#"class First {
    void run() {
        String text = "first";
        char mark = 'a';
        boolean enabled = true;
        System.out.println(text);
        if (enabled) { System.out.println("message"); }
        text = text + "suffix";
    }
}
"#;
    let second = first
        .replace("First", "Second")
        .replace("first", "other")
        .replace("'a'", "'z'")
        .replace("true", "false")
        .replace("message", "different")
        .replace("suffix", "tail");
    let analyzer = JavaAnalyzer::new();
    let first_tree = analyzer.analyze(first).unwrap();
    let second_tree = analyzer.analyze(&second).unwrap();
    let files = [("First.java", first, &first_tree), ("Second.java", second.as_str(), &second_tree)];

    assert_eq!(DuplicationRule::new().check_files(&files).len(), 1);
}

#[test]
fn findings_are_identical_for_reverse_input_order() {
    let first = r#"class First {
    void run() {
        int total = 0;
        total += 1; total += 2; total += 3;
        total += 4; total += 5; total += 6;
        total += 7; total += 8; total += 9;
        System.out.println(total);
    }
}
"#;
    let second = first.replace("First", "Second");
    let analyzer = JavaAnalyzer::new();
    let first_tree = analyzer.analyze(first).unwrap();
    let second_tree = analyzer.analyze(&second).unwrap();
    let ordered: [(&str, &str, &SyntaxTree); 2] =
        [("First.java", first, &first_tree), ("Second.java", second.as_str(), &second_tree)];
    let reversed: [(&str, &str, &SyntaxTree); 2] =
        [("Second.java", second.as_str(), &second_tree), ("First.java", first, &first_tree)];

    assert_eq!(DuplicationRule::new().check_files(&ordered), DuplicationRule::new().check_files(&reversed));
}

#[test]
fn kotlin_literal_values_are_normalized() {
    let first = r#"class First {
    fun run() {
        val text = "first"
        val mark = 'a'
        val enabled = true
        println(text)
        if (enabled) { println("message") }
        println(text + "suffix")
    }
}
"#;
    let second = first
        .replace("First", "Second")
        .replace("first", "other")
        .replace("'a'", "'z'")
        .replace("true", "false")
        .replace("message", "different")
        .replace("suffix", "tail");
    let analyzer = KotlinAnalyzer::new();
    let first_tree = analyzer.analyze(first).unwrap();
    let second_tree = analyzer.analyze(&second).unwrap();
    let files = [("First.kt", first, &first_tree), ("Second.kt", second.as_str(), &second_tree)];

    assert_eq!(DuplicationRule::new().check_files(&files).len(), 1);
}

#[test]
fn duplication_finding_text_is_exact() {
    let first = "class First {\n    void run() {\n        ;\n        ;\n        ;\n        ;\n        ;\n        ;\n        ;\n        ;\n        ;\n        ;\n    }\n}\n";
    let second = first.replace("First", "Second");
    let analyzer = JavaAnalyzer::new();
    let first_tree = analyzer.analyze(first).unwrap();
    let second_tree = analyzer.analyze(&second).unwrap();
    let files = [("Second.java", second.as_str(), &second_tree), ("First.java", first, &first_tree)];
    let findings = DuplicationRule::new().check_files(&files);
    assert_eq!(findings.len(), 1);
    let f = &findings[0];
    assert_eq!(f.file, "First.java");
    assert_eq!(f.severity, "error");
    assert_eq!(f.line, 1);
    assert!(f.message.starts_with("Structural duplication between First.java range 1-"));
    assert!(f.message.contains(" and Second.java range 1-"));
    assert!(f.message.ends_with(" normalized tokens)"));
    assert!(f.fingerprint.starts_with("duplication:First.java:Second.java:"));
    let hash = f.fingerprint.split(':').nth(3).unwrap();
    assert_eq!(hash.len(), 16);
    assert!(hash.chars().all(|c| c.is_ascii_hexdigit() && !c.is_ascii_uppercase()));
}

#[test]
fn stable_value_hash_is_fnv1a_of_utf8() {
    assert_eq!(qgate::rules::duplication::stable_value_hash(""), 0xcbf29ce484222325);
    assert_eq!(qgate::rules::duplication::stable_value_hash("a"), 0xaf63dc4c8601ec8c);
}

#[test]
fn findings_do_not_depend_on_the_order_of_three_files() {
    let first = r#"class First {
    void run() {
        int total = 0;
        total += 1; total += 2; total += 3;
        total += 4; total += 5; total += 6;
        total += 7; total += 8; total += 9;
        System.out.println(total);
    }
}
"#;
    let second = first.replace("First", "Second");
    let third = first.replace("First", "Third");
    let analyzer = JavaAnalyzer::new();
    let a = analyzer.analyze(first).unwrap();
    let b = analyzer.analyze(&second).unwrap();
    let c = analyzer.analyze(&third).unwrap();
    let one: [(&str, &str, &SyntaxTree); 3] =
        [("A.java", first, &a), ("B.java", second.as_str(), &b), ("C.java", third.as_str(), &c)];
    let two: [(&str, &str, &SyntaxTree); 3] =
        [("B.java", second.as_str(), &b), ("C.java", third.as_str(), &c), ("A.java", first, &a)];
    let found = DuplicationRule::new().check_files(&one);
    assert_eq!(found.len(), 3);
    assert_eq!(found, DuplicationRule::new().check_files(&two));
}
