use std::path::Path;

use dbake::logs::{log_path, run_log_dir, safe_file_stem};

#[test]
fn plain_names_are_unchanged() {
    assert_eq!(safe_file_stem("web"), "web");
    assert_eq!(safe_file_stem("api-v2.1_x"), "api-v2.1_x");
}

#[test]
fn path_separators_are_replaced() {
    assert_eq!(safe_file_stem("a/b"), "a_b");
    let stem = safe_file_stem("../../etc/passwd");
    assert!(!stem.contains('/'), "{stem}");
    assert!(!stem.contains(".."), "{stem}");
    assert!(stem.ends_with("etc_passwd"), "{stem}");
}

#[test]
fn traversal_cannot_escape_the_run_directory() {
    let dir = Path::new("/tmp/dbake-logs/42");
    for hostile in [
        "../../../etc/cron.d/evil",
        "..",
        "./../x",
        "/absolute/path",
        "a\\b",
    ] {
        let path = log_path("/tmp/dbake-logs/42", hostile);
        let p = Path::new(&path);
        assert_eq!(p.parent().unwrap(), dir, "escaped with {hostile:?}");
        assert_eq!(p.components().count(), dir.components().count() + 1);
        assert!(!p.to_string_lossy().contains(".."), "{hostile:?}");
    }
}

#[test]
fn dot_names_are_not_left_as_dots() {
    assert_eq!(safe_file_stem("."), "_");
    assert_eq!(safe_file_stem(".."), "__");
    assert_eq!(safe_file_stem(""), "_");
    assert_eq!(safe_file_stem("api-v2.1"), "api-v2.1");
}

#[test]
fn unicode_and_shell_metacharacters_are_replaced() {
    assert_eq!(safe_file_stem("café;rm -rf"), "caf__rm_-rf");
    assert!(!safe_file_stem("a\0b").contains('\0'));
}

#[test]
fn runs_get_separate_directories() {
    assert_ne!(run_log_dir("/tmp", 1), run_log_dir("/tmp", 2));
    assert!(Path::new(&run_log_dir("/tmp", 7)).ends_with("7"));
}

