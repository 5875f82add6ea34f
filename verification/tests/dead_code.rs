use qgate::analyzer::{JavaAnalyzer, KotlinAnalyzer, LanguageAnalyzer};
use qgate::rules::dead_code::DeadCodeRule;
use qgate::rules::Rule;

#[test]
fn java_reports_unused_private_function_and_import() {
    let code = r#"import java.util.List;
class Example {
    private void unused() {
        int value = 1;
    }

    private int helper() {
        return 1;
    }

    void entry() {
        helper();
    }
}
"#;
    let tree = JavaAnalyzer::new().analyze(code).unwrap();
    let violations = DeadCodeRule::new().check("Example.java", code, &tree);

    assert_eq!(violations.len(), 2);
    let unused = violations
        .iter()
        .find(|violation| violation.message.contains("unused"))
        .expect("unused private function should be reported");
    assert_eq!(unused.rule, "dead_code");
    assert_eq!(unused.file, "Example.java");
    assert_eq!(unused.line, 3);

    let import = violations
        .iter()
        .find(|violation| violation.message.contains("java.util.List"))
        .expect("unused import should be reported");
    assert_eq!(import.rule, "dead_code");
    assert_eq!(import.file, "Example.java");
    assert_eq!(import.line, 1);
}

#[test]
fn kotlin_reports_unused_private_member_and_import() {
    let code = r#"import kotlin.collections.MutableList
class Example {
    private val unusedValue = 42
    private fun unusedFunction() {
        println("unused")
    }

    fun entry() {
        println("entry")
    }
}
"#;
    let tree = KotlinAnalyzer::new().analyze(code).unwrap();
    let violations = DeadCodeRule::new().check("Example.kt", code, &tree);

    assert_eq!(violations.len(), 3);
    let unused_value = violations
        .iter()
        .find(|violation| violation.message.contains("unusedValue"))
        .expect("unused private property should be reported");
    assert_eq!(unused_value.rule, "dead_code");
    assert_eq!(unused_value.file, "Example.kt");
    assert_eq!(unused_value.line, 3);

    let unused_function = violations
        .iter()
        .find(|violation| violation.message.contains("unusedFunction"))
        .expect("unused private function should be reported");
    assert_eq!(unused_function.rule, "dead_code");
    assert_eq!(unused_function.file, "Example.kt");
    assert_eq!(unused_function.line, 4);

    let import = violations
        .iter()
        .find(|violation| violation.message.contains("kotlin.collections.MutableList"))
        .expect("unused import should be reported");
    assert_eq!(import.rule, "dead_code");
    assert_eq!(import.file, "Example.kt");
    assert_eq!(import.line, 1);
}

#[test]
fn kotlin_counts_private_primary_constructor_properties_but_not_parameters() {
    let code = r#"class Example(private val unused: String, private val used: String, bare: String) {
    fun entry() {
        println(used)
        println(bare)
    }
}
"#;
    let tree = KotlinAnalyzer::new().analyze(code).unwrap();
    let violations = DeadCodeRule::new().check("Example.kt", code, &tree);

    assert_eq!(violations.len(), 1);
    assert!(violations[0].message.contains("unused"));
}

#[test]
fn local_or_parameter_shadowing_does_not_use_a_private_member() {
    let code = r#"class Example {
    private val value = 1

    fun entry(value: Int) {
        println(value)
    }

    fun actualMemberReference() {
        println(this.value)
    }
}
"#;
    let tree = KotlinAnalyzer::new().analyze(code).unwrap();
    let violations = DeadCodeRule::new().check("Example.kt", code, &tree);

    assert_eq!(violations.len(), 0);
}

#[test]
fn nested_local_only_shadows_references_inside_its_block() {
    let code = r#"class Example {
    private val value = 1

    fun entry() {
        println(value)
        run {
            val value = 2
            println(value)
        }
        println(value)
    }
}
"#;
    let tree = KotlinAnalyzer::new().analyze(code).unwrap();
    let violations = DeadCodeRule::new().check("Example.kt", code, &tree);

    assert!(violations.is_empty());
}

#[test]
fn kotlin_default_parameter_call_uses_private_function() {
    let code = r#"class Example {
    private fun helper(required: Int, optional: Int = 1) {}

    fun entry() {
        helper(1)
    }
}
"#;
    let tree = KotlinAnalyzer::new().analyze(code).unwrap();
    let violations = DeadCodeRule::new().check("Example.kt", code, &tree);

    assert!(violations.is_empty());
}

#[test]
fn java_vararg_call_uses_private_function() {
    let code = r#"class Example {
    private void helper(int... values) {}

    void entry() {
        helper(1, 2);
    }
}
"#;
    let tree = JavaAnalyzer::new().analyze(code).unwrap();
    let violations = DeadCodeRule::new().check("Example.java", code, &tree);

    assert!(violations.is_empty());
}

#[test]
fn annotated_java_private_methods_are_excluded() {
    let code = r#"class Example {
    @Deprecated
    private void legacy() {}
}
"#;
    let tree = JavaAnalyzer::new().analyze(code).unwrap();

    assert!(DeadCodeRule::new().check("Example.java", code, &tree).is_empty());
}

#[test]
fn wildcard_imports_are_conservatively_ignored() {
    let code = r#"import java.util.*;
class Example {}
"#;
    let tree = JavaAnalyzer::new().analyze(code).unwrap();

    assert!(DeadCodeRule::new().check("Example.java", code, &tree).is_empty());
}

#[test]
fn receiver_calls_only_use_same_type_methods() {
    let code = r#"class Example {
    private fun same() {}
    private fun other() {}
    fun entry() {
        this.same()
        self.other()
        external.same()
    }
}
"#;
    let tree = KotlinAnalyzer::new().analyze(code).unwrap();
    let violations = DeadCodeRule::new().check("Example.kt", code, &tree);

    assert_eq!(violations.len(), 0, "this/self calls should count as uses");
}

#[test]
fn qualified_external_properties_do_not_use_private_members() {
    let java = r#"class Example {
    private int value = 1;
    void entry() { external.value = 2; }
}
"#;
    let java_tree = JavaAnalyzer::new().analyze(java).unwrap();
    assert!(DeadCodeRule::new()
        .check("Example.java", java, &java_tree)
        .iter()
        .any(|violation| violation.message.contains("value")));

    let kotlin = r#"class Example {
    private val value = 1
    fun entry() {
        external.value
    }
}
"#;
    let kotlin_tree = KotlinAnalyzer::new().analyze(kotlin).unwrap();
    assert!(DeadCodeRule::new()
        .check("Example.kt", kotlin, &kotlin_tree)
        .iter()
        .any(|violation| violation.message.contains("value")));
}

#[test]
fn current_type_qualified_properties_count_as_uses() {
    let java = r#"class Example {
    private int value = 1;
    void entry() { Example.value = 2; }
}
"#;
    let java_tree = JavaAnalyzer::new().analyze(java).unwrap();
    assert!(DeadCodeRule::new()
        .check("Example.java", java, &java_tree)
        .iter()
        .all(|violation| !violation.message.contains("value")));

    let kotlin = r#"class Example {
    private val value = 1
    fun entry() {
        this.value
    }
}
"#;
    let kotlin_tree = KotlinAnalyzer::new().analyze(kotlin).unwrap();
    assert!(DeadCodeRule::new()
        .check("Example.kt", kotlin, &kotlin_tree)
        .iter()
        .all(|violation| !violation.message.contains("value")));
}

#[test]
fn same_named_private_methods_are_scoped_and_overloads_are_distinct() {
    let code = r#"class First {
    private void helper() {}
    private void helper(int value) {}
    void entry() { helper(); }
}
class Second {
    private void helper() {}
}
"#;
    let tree = JavaAnalyzer::new().analyze(code).unwrap();
    let violations = DeadCodeRule::new().check("Example.java", code, &tree);

    assert_eq!(violations.len(), 2);
    assert!(violations.iter().any(|violation| violation.line == 3));
    assert!(violations.iter().any(|violation| violation.line == 7));
}

#[test]
fn dead_code_messages_and_fingerprints_are_exact() {
    let code = "import java.util.List;\nclass Example {\n    private void unused() {}\n}\n";
    let tree = JavaAnalyzer::new().analyze(code).unwrap();
    let violations = DeadCodeRule::new().check_source("Example.java", code, &tree);
    assert_eq!(violations.len(), 2);
    assert_eq!(violations[0].line, 1);
    assert_eq!(violations[0].message, "Unused import 'java.util.List'");
    assert_eq!(violations[0].fingerprint, "Example.java:dead_code:import:java.util.List:List");
    assert_eq!(violations[1].line, 3);
    assert_eq!(violations[1].message, "Unused private function 'unused'");
    assert_eq!(violations[1].fingerprint, "Example.java:dead_code:function:Example:function:unused:0");
    assert_eq!(violations[1].severity, "error");
}

#[test]
fn dead_code_ignores_other_extensions_and_reads_extensions_case_blind() {
    let code = "class Example {\n    private void unused() {}\n}\n";
    let tree = JavaAnalyzer::new().analyze(code).unwrap();
    assert!(DeadCodeRule::new().check("Example.txt", code, &tree).is_empty());
    assert!(DeadCodeRule::new().check("Example", code, &tree).is_empty());
    assert_eq!(DeadCodeRule::new().check("Example.JAVA", code, &tree).len(), 1);
}
