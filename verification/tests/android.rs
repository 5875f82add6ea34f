use qgate::aspects::android::{detect_android_aspects, has_plugin_declaration};
use qgate::config::QualityAspect;

#[test]
fn android_build_with_spotless_detects_gradle_tasks() {
    let build = "plugins {\n                id(\"com.android.application\")\n                id(\"com.diffplug.spotless\")\n            }";
    let detected = detect_android_aspects(true, build, true);
    let command = |aspect| detected.get(&aspect).and_then(|c| c.command.clone());
    assert_eq!(command(QualityAspect::Build).as_deref(), Some("./gradlew assembleDebug"));
    assert_eq!(command(QualityAspect::UnitTest).as_deref(), Some("./gradlew testDebugUnitTest"));
    assert_eq!(command(QualityAspect::Lint).as_deref(), Some("./gradlew lintDebug"));
    assert_eq!(command(QualityAspect::TypeCheck).as_deref(), Some("./gradlew compileDebugKotlin"));
    assert_eq!(command(QualityAspect::Style).as_deref(), Some("./gradlew spotlessCheck"));
}

#[test]
fn comments_and_strings_cannot_declare_plugins() {
    assert!(!has_plugin_declaration("// id 'com.android.application'", "com.android.application"));
    assert!(!has_plugin_declaration("val s = \"id 'com.android.application'\"", "com.android.application"));
    assert!(has_plugin_declaration("plugins { id 'com.android.application' }", "com.android.application"));
    assert!(detect_android_aspects(false, "plugins { id 'com.android.application' }", false).is_empty());
}

fn command_of(detected: &qgate::config::AspectMap, aspect: QualityAspect) -> Option<String> {
    detected.get(&aspect).and_then(|c| c.command.clone())
}

#[test]
fn test_detect_android_aspects_with_gradlew_and_build_gradle_kts() {
    let build = "plugins {\n                id(\"com.android.application\")\n                id(\"com.diffplug.spotless\")\n            }\n";
    let detected = detect_android_aspects(true, build, true);

    assert_eq!(command_of(&detected, QualityAspect::Build).as_deref(), Some("./gradlew assembleDebug"));
    assert_eq!(command_of(&detected, QualityAspect::UnitTest).as_deref(), Some("./gradlew testDebugUnitTest"));
    assert_eq!(command_of(&detected, QualityAspect::Lint).as_deref(), Some("./gradlew lintDebug"));
    assert_eq!(command_of(&detected, QualityAspect::TypeCheck).as_deref(), Some("./gradlew compileDebugKotlin"));
    assert_eq!(command_of(&detected, QualityAspect::Style).as_deref(), Some("./gradlew spotlessCheck"));
}

#[test]
fn test_detect_android_aspects_with_ktlint() {
    let build = "plugins {\n                id 'com.android.library'\n                id 'org.jlleitschuh.gradle.ktlint'\n            }\n";
    let detected = detect_android_aspects(true, build, false);

    assert_eq!(command_of(&detected, QualityAspect::Style).as_deref(), Some("./gradlew ktlintCheck"));
    assert!(!detected.contains_key(&QualityAspect::TypeCheck));
}

#[test]
fn test_java_only_android_project_has_no_kotlin_type_check() {
    let detected = detect_android_aspects(true, "plugins { id 'com.android.application' }\n", false);

    assert!(!detected.contains_key(&QualityAspect::TypeCheck));
}

#[test]
fn test_detect_android_aspects_scans_nested_build_scripts() {
    let detected = detect_android_aspects(true, "plugins { id(\"com.android.library\") }\n", false);

    assert_eq!(command_of(&detected, QualityAspect::Build).as_deref(), Some("./gradlew assembleDebug"));
}

#[test]
fn test_style_plugin_is_detected_without_android_plugin() {
    let detected = detect_android_aspects(true, "apply plugin: 'org.jlleitschuh.gradle.ktlint'\n", false);

    assert!(!detected.contains_key(&QualityAspect::Build));
    assert_eq!(command_of(&detected, QualityAspect::Style).as_deref(), Some("./gradlew ktlintCheck"));
}

#[test]
fn comments_and_fake_plugin_ids_are_ignored() {
    let build = "// apply plugin: 'com.android.application'\n/* id 'com.android.library' */\npluginsFake { id 'com.android.application.fake' }\n";

    assert!(detect_android_aspects(true, build, false).is_empty());
}

#[test]
fn strings_and_comments_cannot_fake_plugin_declarations() {
    let build = r#"def fake = "id('com.android.application')"
println("plugins { id('com.android.application') }")
def triple = """apply plugin: 'com.android.application'"""
// apply plugin: 'com.android.application'
/* plugins { id 'com.android.application' } */
"#;

    assert!(detect_android_aspects(true, build, false).is_empty());
}

#[test]
fn valid_plugin_declarations_are_detected() {
    let build = "plugins { id 'com.android.application' }\napply plugin: 'org.jlleitschuh.gradle.ktlint'\n";
    let detected = detect_android_aspects(true, build, false);

    assert!(detected.contains_key(&QualityAspect::Build));
    assert!(detected.contains_key(&QualityAspect::Style));
}

#[test]
fn test_detect_android_aspects_non_android_repo() {
    let detected = detect_android_aspects(false, "", false);
    assert!(detected.is_empty());
}

#[test]
fn only_gradle_build_scripts_are_read() {
    assert!(qgate::aspects::android::is_gradle_build_file("build.gradle"));
    assert!(qgate::aspects::android::is_gradle_build_file("build.gradle.kts"));
    assert!(!qgate::aspects::android::is_gradle_build_file("settings.gradle"));
    assert!(!qgate::aspects::android::is_gradle_build_file("Build.gradle"));
}

#[test]
fn leading_comments_leave_plugin_declarations_unchanged() {
    let script = "plugins { id 'com.android.application' }\n";
    let marker = "com.android.application";
    for prefix in ["// apply plugin: 'com.android.application'\n", "/* id 'com.android.library' */"] {
        let with_comment = format!("{prefix}{script}");
        assert_eq!(has_plugin_declaration(&with_comment, marker), has_plugin_declaration(script, marker));
        assert!(has_plugin_declaration(&with_comment, marker));
        let only_comment = format!("{prefix}pluginsFake {{ }}\n");
        assert!(!has_plugin_declaration(&only_comment, marker));
    }
}

#[test]
fn nothing_is_detected_without_a_wrapper() {
    let script = "plugins {\n    id 'com.android.application'\n    id 'com.diffplug.spotless'\n}\n";
    assert!(detect_android_aspects(false, script, true).is_empty());
    assert!(detect_android_aspects(true, "", true).is_empty());
    assert!(!detect_android_aspects(true, script, true).is_empty());
}
