//! Faults for people to read.

use clash_prism_core::error::PrismError;
use clash_prism_core::error_format::{classify_error, format_user_facing_error, ErrorCategory};

#[test]
fn test_classify_error_io() {
    let err = PrismError::Io {
        detail: "not found".to_string(),
        source: std::io::Error::new(std::io::ErrorKind::NotFound, "not found"),
    };
    assert_eq!(classify_error(&err), ErrorCategory::FileSystem);
}

#[test]
fn test_classify_error_path_not_found() {
    let err = PrismError::PathNotFound {
        path: "/tmp/test".to_string(),
    };
    assert_eq!(classify_error(&err), ErrorCategory::FileSystem);
}

#[test]
fn test_classify_error_type_mismatch() {
    let err = PrismError::TypeMismatch {
        expected: "string".to_string(),
        actual: "number".to_string(),
        path: "/config/name".to_string(),
    };
    assert_eq!(classify_error(&err), ErrorCategory::ConfigStructure);
}

#[test]
fn test_classify_error_validation() {
    let err = PrismError::Validation {
        message: "无效值".to_string(),
        path: Some("/config/port".to_string()),
    };
    assert_eq!(classify_error(&err), ErrorCategory::Validation);
}

#[test]
fn test_classify_error_duplicate_proxy() {
    let err = PrismError::DuplicateProxyName {
        name: "proxy1".to_string(),
        count: 2,
    };
    assert_eq!(classify_error(&err), ErrorCategory::Validation);
}

#[test]
fn test_classify_error_circular_dependency() {
    let err = PrismError::CircularDependency {
        cycle: "A -> B -> A".to_string(),
    };
    assert_eq!(classify_error(&err), ErrorCategory::ConfigStructure);
}

#[test]
fn test_classify_error_patch_execution() {
    let err = PrismError::PatchExecutionFailed {
        patch_id: "p1".to_string(),
        reason: "路径不存在".to_string(),
    };
    assert_eq!(classify_error(&err), ErrorCategory::Runtime);
}

#[test]
fn test_format_user_error_io() {
    let err = PrismError::Io {
        detail: "permission denied".to_string(),
        source: std::io::Error::new(std::io::ErrorKind::PermissionDenied, "permission denied"),
    };
    let user_err = format_user_facing_error(&err);
    assert_eq!(user_err.category, ErrorCategory::FileSystem);
    assert_eq!(user_err.title, "File operation failed");
    assert!(user_err.detail.contains("permission denied"));
    assert!(user_err.suggestion.is_some());
}

#[test]
fn test_format_user_error_type_mismatch() {
    let err = PrismError::TypeMismatch {
        expected: "number".to_string(),
        actual: "string".to_string(),
        path: "/proxies/0/port".to_string(),
    };
    let user_err = format_user_facing_error(&err);
    assert_eq!(user_err.category, ErrorCategory::ConfigStructure);
    assert!(user_err.detail.contains("number"));
    assert!(user_err.detail.contains("string"));
    assert!(user_err.detail.contains("/proxies/0/port"));
}

#[test]
fn test_format_user_error_duplicate_proxy() {
    let err = PrismError::DuplicateProxyName {
        name: "my-proxy".to_string(),
        count: 3,
    };
    let user_err = format_user_facing_error(&err);
    assert_eq!(user_err.category, ErrorCategory::Validation);
    assert!(user_err.detail.contains("my-proxy"));
    assert!(user_err.detail.contains("3"));
}

#[test]
fn test_format_user_error_display() {
    let err = PrismError::PathNotFound {
        path: "/missing/file.yaml".to_string(),
    };
    let user_err = format_user_facing_error(&err);
    let display = user_err.to_text();
    assert!(display.contains("[FileSystem]"));
    assert!(display.contains("Path not found"));
    assert!(display.contains("/missing/file.yaml"));
    assert!(display.contains("Suggestion:"));
}

#[test]
fn test_error_category_display() {
    assert_eq!(ErrorCategory::FileSystem.name(), "FileSystem");
    assert_eq!(
        ErrorCategory::ConfigStructure.name(),
        "ConfigStructure"
    );
    assert_eq!(ErrorCategory::Security.name(), "Security");
    assert_eq!(ErrorCategory::Runtime.name(), "Runtime");
    assert_eq!(ErrorCategory::Network.name(), "Network");
    assert_eq!(ErrorCategory::Script.name(), "Script");
    assert_eq!(ErrorCategory::Plugin.name(), "Plugin");
    assert_eq!(ErrorCategory::Validation.name(), "Validation");
    assert_eq!(ErrorCategory::Unknown.name(), "Unknown");
}

#[test]
fn test_format_user_error_dsl_parse() {
    let err = PrismError::DslParse {
        message: "意外的标记".to_string(),
        file: Some("/test/config.prism.yaml".to_string()),
        line: Some(42),
    };
    let user_err = format_user_facing_error(&err);
    assert!(user_err.detail.contains("意外的标记"));
    assert!(user_err.detail.contains("config.prism.yaml"));
    assert!(user_err.detail.contains("42"));
}

#[test]
fn test_format_user_error_circular_dependency() {
    let err = PrismError::CircularDependency {
        cycle: "A -> B -> C -> A".to_string(),
    };
    let user_err = format_user_facing_error(&err);
    assert!(user_err.detail.contains("A -> B -> C -> A"));
    assert!(user_err.suggestion.is_some());
}

#[test]
fn test_format_user_error_proxy_group_missing() {
    let err = PrismError::ProxyGroupMissingProxy {
        group: "auto".to_string(),
        proxy: "missing-proxy".to_string(),
    };
    let user_err = format_user_facing_error(&err);
    assert!(user_err.detail.contains("auto"));
    assert!(user_err.detail.contains("missing-proxy"));
}
