use std::path::Path;

use dbake::path::{extension_of, joined_path};
use dbake::platform::{platform_matches, platforms_compatible};
use dbake::typo::{levenshtein, suggestion};

#[test]
fn extensions_are_those_of_the_standard_library() {
    for path in [
        "a.hcl", "a", ".a", "a.", "..", ".", "", "/", "d.x/a", "d/a.tar.gz", "a.hcl/", "a.hcl//",
        "a.hcl/.", "a.hcl/./", "a.hcl/..", "/..", "d/.b", "d/.b.c", "✓.é", "a.b/.", "...",
    ] {
        let expected = Path::new(path)
            .extension()
            .map(|e| e.to_str().unwrap().to_string());
        assert_eq!(extension_of(path), expected, "{path:?}");
    }
}

#[test]
fn joined_paths_are_those_of_the_standard_library() {
    for dir in ["", "/", "a", "a/", "/a//"] {
        for name in ["", "b", "b/c"] {
            let expected = Path::new(dir).join(name);
            assert_eq!(joined_path(dir, name), expected.to_str().unwrap());
        }
    }
}

#[test]
fn distances_are_symmetric_and_zero_only_for_equals() {
    let words = ["", "a", "web", "wbe", "webs", "kitten", "sitting", "✓"];
    for a in words {
        for b in words {
            assert_eq!(levenshtein(a, b), levenshtein(b, a));
            assert_eq!(levenshtein(a, b) == 0, a == b);
        }
    }
    for a in words {
        for b in words {
            for c in words {
                assert!(levenshtein(a, c) <= levenshtein(a, b) + levenshtein(b, c));
            }
        }
    }
    assert_eq!(levenshtein("wroker", "worker"), 2);
    assert_eq!(levenshtein("kitten", "sitting"), 3);
    assert_eq!(levenshtein("✓", "ab"), 2);
}

#[test]
fn the_nearest_name_is_suggested() {
    let names = vec!["api".to_string(), "web".to_string()];
    assert_eq!(suggestion("wb", &names).unwrap(), "web");
    assert!(suggestion("wbe", &names).is_none());
    assert!(suggestion("database", &names).is_none());
}

#[test]
fn a_target_without_platforms_goes_anywhere() {
    let node = vec!["linux/arm64/v8".to_string()];
    assert!(platforms_compatible(&node, &[]));
    assert!(platforms_compatible(&node, &["linux/arm64".to_string()]));
    assert!(!platforms_compatible(&node, &["linux/amd64".to_string()]));
    assert!(platform_matches("linux/arm64", "linux/arm64/v8"));
    assert!(platform_matches("linux/arm64/v8", "linux/arm64"));
    assert!(!platform_matches("linux/arm/v6", "linux/arm/v7"));
}
