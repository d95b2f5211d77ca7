//! Unit tests for the path-string helpers.

use affected::extract::dec_u32;
use affected::paths::dirname;
use affected::paths::join_path;
use affected::paths::path_has_component;
use affected::paths::rel_label;

#[test]
fn test_join_relative() {
    assert_eq!(join_path("/repo", "fixtures/a.js"), "/repo/fixtures/a.js");
}

#[test]
fn test_join_absolute_replaces() {
    assert_eq!(join_path("/repo", "/other/a.js"), "/other/a.js");
}

#[test]
fn test_join_trailing_separator() {
    assert_eq!(join_path("/repo/", "a.js"), "/repo/a.js");
}

#[test]
fn test_component_found() {
    let names = vec!["node_modules".to_string()];
    assert!(path_has_component("/repo/node_modules/dep/index.js", &names));
}

#[test]
fn test_component_no_partial_match() {
    let names = vec!["node_modules".to_string()];
    assert!(!path_has_component("/repo/node_modules_backup/dep.js", &names));
    assert!(!path_has_component("/repo/src/a.js", &names));
}

#[test]
fn test_component_last_segment() {
    let names = vec!["dist".to_string()];
    assert!(path_has_component("/repo/out/dist", &names));
}

#[test]
fn test_dirname_cases() {
    assert_eq!(dirname("/repo/a/b.js"), Some("/repo/a".to_string()));
    assert_eq!(dirname("/b.js"), Some("/".to_string()));
    assert_eq!(dirname("/"), None);
    assert_eq!(dirname("plain"), None);
}

#[test]
fn test_rel_label_under_base() {
    assert_eq!(rel_label("/repo", "/repo/src/a.js"), "src/a.js");
}

#[test]
fn test_rel_label_elsewhere() {
    assert_eq!(rel_label("/repo", "/other/a.js"), "/other/a.js");
    assert_eq!(rel_label("/repo", "/repo"), "/repo");
}

#[test]
fn test_decimal_rendering() {
    assert_eq!(dec_u32(0), "0");
    assert_eq!(dec_u32(7), "7");
    assert_eq!(dec_u32(10), "10");
    assert_eq!(dec_u32(40321), "40321");
}
