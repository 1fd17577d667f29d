use typstudio_core::error::FileError;
use typstudio_core::sandbox::{join_segments, normalize_segments, resolve, split_segments,
    string_eq_str};

#[test]
fn split_plain_segments() {
    let segs = split_segments("a/b/c");
    assert_eq!(segs, vec!["a".to_string(), "b".to_string(), "c".to_string()]);
}

#[test]
fn split_keeps_empty_segments() {
    let segs = split_segments("/a//b/");
    assert_eq!(
        segs,
        vec!["".to_string(), "a".to_string(), "".to_string(), "b".to_string(), "".to_string()]
    );
}

#[test]
fn split_empty_path_is_one_empty_segment() {
    assert_eq!(split_segments(""), vec!["".to_string()]);
}

#[test]
fn normalize_drops_dot_and_empty() {
    let segs = split_segments("/a/./b//c");
    let norm = normalize_segments(&segs).unwrap();
    assert_eq!(norm, vec!["a".to_string(), "b".to_string(), "c".to_string()]);
}

#[test]
fn normalize_pops_on_parent() {
    let segs = split_segments("a/b/../c");
    let norm = normalize_segments(&segs).unwrap();
    assert_eq!(norm, vec!["a".to_string(), "c".to_string()]);
}

#[test]
fn normalize_denies_rising_above_root() {
    let segs = split_segments("a/../..");
    assert!(matches!(normalize_segments(&segs), Err(FileError::AccessDenied)));
}

#[test]
fn resolve_starts_with_root_and_keeps_order() {
    // Only normal segments: the root prefix and the segment order are kept.
    let r = resolve("/proj", "src/chapter/intro.typ").unwrap();
    assert_eq!(r, "/proj/src/chapter/intro.typ");
    assert!(r.starts_with("/proj"));
}

#[test]
fn resolve_empty_path_is_root() {
    assert_eq!(resolve("/proj", "").unwrap(), "/proj");
}

#[test]
fn resolve_denies_escape_whether_or_not_target_exists() {
    // The escape is refused lexically; "/etc/passwd" does exist here and
    // "/proj" does not, and neither matters.
    let r = resolve("/proj", "../../etc/passwd");
    assert!(matches!(r, Err(FileError::AccessDenied)));
}

#[test]
fn resolve_allows_descend_then_rise() {
    assert_eq!(resolve("/proj", "a/b/../c").unwrap(), "/proj/a/c");
}

#[test]
fn resolve_denies_exact_rise_to_parent() {
    assert!(matches!(resolve("/proj", ".."), Err(FileError::AccessDenied)));
}

#[test]
fn join_appends_each_segment() {
    let segs = vec!["a".to_string(), "b".to_string()];
    assert_eq!(join_segments("/root", &segs), "/root/a/b");
}

#[test]
fn string_eq_compares_text() {
    assert!(string_eq_str("abc", "abc"));
    assert!(!string_eq_str("abc", "abd"));
    assert!(!string_eq_str("abc", "ab"));
    assert!(string_eq_str("", ""));
}

#[test]
fn resolve_dot_only_path_is_root() {
    assert_eq!(resolve("/proj", ".").unwrap(), "/proj");
    assert_eq!(resolve("/proj", "./").unwrap(), "/proj");
}

#[test]
fn resolve_denies_escape_after_descending() {
    assert!(matches!(resolve("/proj", "a/b/../../.."), Err(FileError::AccessDenied)));
}

#[test]
fn resolve_ignores_trailing_separator() {
    assert_eq!(resolve("/proj", "a/b/").unwrap(), "/proj/a/b");
}
