use qgate::git::changed_source_paths;

#[test]
fn status_records_give_new_rename_paths_and_skip_deletions() {
    let status = b"R  new.java\0old.java\0 D deleted.kt\0?? notes.txt\0M  src/A.kt\0?? .java\0AM dir/B.java\0";
    let changed = changed_source_paths(status);
    let texts: Vec<String> = changed.iter().map(|p| String::from_utf8_lossy(p).into_owned()).collect();
    assert_eq!(texts, vec!["new.java".to_string(), "src/A.kt".to_string(), "dir/B.java".to_string()]);
}

#[test]
fn short_records_are_skipped() {
    assert!(changed_source_paths(b"M \0").is_empty());
    assert!(changed_source_paths(b"").is_empty());
}

#[test]
fn status_uses_new_rename_path_and_skips_deleted_files() {
    // `git status --porcelain -z` after renaming old.java to new.java and
    // deleting deleted.kt.
    let status = b"R  new.java\0old.java\0 D deleted.kt\0";
    let changed = changed_source_paths(status);
    assert_eq!(changed, vec![b"new.java".to_vec()]);
}
