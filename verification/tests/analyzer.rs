use qgate::analyzer::{JavaAnalyzer, KotlinAnalyzer, LanguageAnalyzer};

#[test]
fn parses_nested_fun_interface_without_errors() {
    let tree = KotlinAnalyzer::new()
        .analyze("class Container {\n    fun interface OnBackKeyListener {\n        fun onBack()\n    }\n}")
        .expect("Kotlin should parse");

    assert!(!tree.has_error());
    assert!(tree.nodes.iter().any(|node| node.kind == "class_declaration"));
}

#[test]
fn parses_delegated_property_and_consecutive_when_ranges_without_errors() {
    let tree = KotlinAnalyzer::new()
        .analyze("class Lifecycle {\n    private val usageEvent: UsageEvent by inject()\n\n    fun lifecycle(hour: Int) {\n        when (hour) {\n            in MORNING -> Unit\n            in AFTERNOON -> Unit\n        }\n    }\n\n    companion object {\n        private val MORNING = 6..11\n        private val AFTERNOON = 12..17\n    }\n}")
        .expect("Kotlin should parse");

    assert!(!tree.has_error());
}

#[test]
fn parses_open_as_an_ordinary_call_without_errors() {
    let tree = KotlinAnalyzer::new().analyze("fun navigate() {\n    open()\n}").expect("Kotlin should parse");

    assert!(!tree.has_error());
}

#[test]
fn parses_safe_call_after_call_with_trailing_lambda_without_errors() {
    let tree = KotlinAnalyzer::new()
        .analyze("fun load() {\n    provider()?.also { family -> families.add(family) }\n}")
        .expect("Kotlin should parse");

    assert!(!tree.has_error());
}

#[test]
fn parses_type_annotated_single_abstract_property_override_without_errors() {
    let tree = KotlinAnalyzer::new()
        .analyze("abstract class Provider : Base() {\n    @com.example.StorageLevel\n    abstract val requiredStorageLevel: String\n}")
        .expect("Kotlin should parse");

    assert!(!tree.has_error());
}

#[test]
fn parses_safe_cast_then_safe_nav_without_errors() {
    let tree = KotlinAnalyzer::new().analyze("val x = (res as? Success)?.data").expect("Kotlin should parse");
    assert!(!tree.has_error(), "Safe cast + nav");
}

#[test]
fn parses_trailing_comma_in_nested_call_without_errors() {
    let tree = KotlinAnalyzer::new().analyze("fun f() { g(h(1, ), ) }").expect("Kotlin should parse");
    assert!(!tree.has_error(), "Trailing comma");
}

#[test]
fn parses_composable_lambda_parameter_without_errors() {
    let tree = KotlinAnalyzer::new()
        .analyze("fun BlazeTheme(content: @Composable () -> Unit) {}")
        .expect("Kotlin should parse");
    assert!(!tree.has_error(), "Composable parameter");
}

#[test]
fn parses_parenthesized_composable_lambda_parameter_without_errors() {
    let tree = KotlinAnalyzer::new()
        .analyze("fun BlazeTheme(content: (@Composable () -> Unit)) {}")
        .expect("Kotlin should parse");
    assert!(!tree.has_error(), "Parenthesized composable parameter");
}

#[test]
fn rejects_malformed_kotlin_source_with_error_nodes() {
    let tree = KotlinAnalyzer::new().analyze("fun invalid( {").expect("Should still produce a tree");
    assert!(tree.has_error());
}

#[test]
fn java_tree_covers_the_source_in_characters() {
    let code = "class Café { String s = \"é\"; }";
    let tree = JavaAnalyzer::new().analyze(code).unwrap();
    assert!(!tree.has_error());
    assert_eq!(tree.nodes[0].start, 0);
    assert_eq!(tree.nodes[0].end, code.chars().count());
    let name = tree.nodes.iter().find(|n| n.kind == "identifier").unwrap();
    let text: String = tree.source[name.start..name.end].iter().collect();
    assert_eq!(text, "Café");
}
