use monocore::error::MonoutilsError;
use monocore::path::{normalize_path, normalize_volume_path, paths_overlap, SupportedPathType};

#[test]
fn test_paths_overlap() {
    // Test cases that should conflict
    assert!(paths_overlap("/data", "/data"));
    assert!(paths_overlap("/data", "/data/app"));
    assert!(paths_overlap("/data/app", "/data"));
    assert!(paths_overlap("/data/app/logs", "/data/app"));

    // Test cases that should not conflict
    assert!(!paths_overlap("/data", "/database"));
    assert!(!paths_overlap("/var/log", "/var/lib"));
    assert!(!paths_overlap("/data/app1", "/data/app2"));
    assert!(!paths_overlap("/data/app/logs", "/data/web/logs"));
}

#[test]
fn normalize_absolute_paths() {
    assert_eq!(normalize_path("/a/b/c", SupportedPathType::Absolute).unwrap(), "/a/b/c");
    assert_eq!(normalize_path("/a//b/./c/", SupportedPathType::Absolute).unwrap(), "/a/b/c");
    assert_eq!(normalize_path("/a/b/../c", SupportedPathType::Absolute).unwrap(), "/a/c");
    assert_eq!(normalize_path("/", SupportedPathType::Absolute).unwrap(), "/");
    assert_eq!(normalize_path("/a/..", SupportedPathType::Absolute).unwrap(), "/");
}

#[test]
fn normalize_relative_paths() {
    assert_eq!(normalize_path("a/b", SupportedPathType::Relative).unwrap(), "a/b");
    assert_eq!(normalize_path("a/./b//", SupportedPathType::Relative).unwrap(), "a/b");
    assert_eq!(normalize_path("a/b/..", SupportedPathType::Relative).unwrap(), "a");
}

#[test]
fn normalize_rejects_escapes_and_mismatches() {
    assert!(matches!(
        normalize_path("/a/../../b", SupportedPathType::Absolute),
        Err(MonoutilsError::PathValidation(_))
    ));
    assert!(matches!(
        normalize_path("../a", SupportedPathType::Relative),
        Err(MonoutilsError::PathValidation(_))
    ));
    assert!(matches!(
        normalize_path("a/b", SupportedPathType::Absolute),
        Err(MonoutilsError::PathValidation(_))
    ));
    assert!(matches!(
        normalize_path("/a/b", SupportedPathType::Relative),
        Err(MonoutilsError::PathValidation(_))
    ));
    assert!(matches!(
        normalize_path("", SupportedPathType::Any),
        Err(MonoutilsError::PathValidation(_))
    ));
}

#[test]
fn volume_paths_confined_to_base() {
    assert_eq!(normalize_volume_path("/base", "/base/sub").unwrap(), "/base/sub");
    assert_eq!(normalize_volume_path("/base", "sub/dir").unwrap(), "/base/sub/dir");
    assert_eq!(normalize_volume_path("/base", "/base").unwrap(), "/base");
    // an absolute path outside the base is rejected
    assert!(normalize_volume_path("/base", "/other").is_err());
    // a sibling with the base as a string prefix is rejected too
    assert!(normalize_volume_path("/base", "/based").is_err());
    // a relative path that climbs out is rejected
    assert!(normalize_volume_path("/base", "../escape").is_err());
    // climbing inside the base is fine as long as it stays below it
    assert_eq!(normalize_volume_path("/base", "a/../b").unwrap(), "/base/b");
}
