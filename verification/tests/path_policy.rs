use qgate::path_policy::{has_skipped_component, is_skipped_directory};

#[test]
fn exclusions_are_relative_to_the_project_root() {
    assert!(!has_skipped_component("/tmp/build", "/tmp/build"));
    assert!(!has_skipped_component("/tmp/build-parent/project/src/Main.java", "/tmp/build-parent/project"));
    assert!(has_skipped_component("/tmp/project/Build/src/Main.java", "/tmp/project"));
    assert!(!has_skipped_component("/tmp/project/src/Main.java", "/tmp/project"));
}

#[test]
fn skipped_directory_names_ignore_case() {
    assert!(is_skipped_directory("NODE_MODULES"));
    assert!(is_skipped_directory(".git"));
    assert!(!is_skipped_directory("src"));
}

#[test]
fn a_skipped_directory_excludes_everything_below_it() {
    assert!(has_skipped_component("/repo/build", "/repo"));
    assert!(has_skipped_component("/repo/build/generated/src/A.java", "/repo"));
    assert!(has_skipped_component("/repo/app/out/B.kt", "/repo"));
    assert!(!has_skipped_component("/repo", "/repo"));
}
