//! Faults and their messages.

use clash_prism_core::error::{CompileError, IoFault, PrismError, TransformWarning};

#[test]
fn test_prism_error_display_circular_dependency() {
    let err = PrismError::CircularDependency {
        cycle: "A -> B -> A".to_string(),
    };
    let display = err.message();
    assert!(
        display.contains("A -> B -> A"),
        "Display 应包含循环路径: {}",
        display
    );
}

#[test]
fn test_prism_error_display_dsl_parse() {
    let err = PrismError::DslParse {
        message: "unexpected token".to_string(),
        file: Some("test.prism.yaml".to_string()),
        line: Some(42),
    };
    let display = err.message();
    assert!(
        display.contains("unexpected token"),
        "Display 应包含 message: {}",
        display
    );
    assert!(
        display.contains("DSL 解析错误"),
        "Display 应包含错误类型: {}",
        display
    );
}

#[test]
fn test_prism_error_display_validation() {
    let err = PrismError::Validation {
        message: "port must be positive".to_string(),
        path: Some("mixed-port".to_string()),
    };
    let display = err.message();
    assert!(
        display.contains("port must be positive"),
        "Display 应包含 message: {}",
        display
    );
}

#[test]
fn test_from_io_error_to_prism_error() {
    let io_err = std::io::Error::new(std::io::ErrorKind::NotFound, "file not found");
    let prism_err: PrismError = io_err.into();

    match &prism_err {
        PrismError::Io { detail, source } => {
            assert_eq!(detail, "file not found");
            assert_eq!(source.kind(), std::io::ErrorKind::NotFound);
        }
        other => panic!("Expected PrismError::Io, got {:?}", other),
    }
}

#[test]
fn test_from_prism_error_to_compile_error_circular() {
    let prism_err = PrismError::CircularDependency {
        cycle: "A -> B -> A".to_string(),
    };
    let compile_err: CompileError = prism_err.into();

    match &compile_err {
        CompileError::CircularDependency(cycle) => {
            assert_eq!(cycle, "A -> B -> A");
        }
        other => panic!("Expected CompileError::CircularDependency, got {:?}", other),
    }
}

#[test]
fn test_from_prism_error_to_compile_error_not_found() {
    let prism_err = PrismError::DependencyNotFound {
        dep: "base-dns".to_string(),
        file: "rules.prism.yaml".to_string(),
    };
    let compile_err: CompileError = prism_err.into();

    match &compile_err {
        CompileError::DependencyNotFound(msg) => {
            assert!(msg.contains("base-dns"), "应包含 dep 名称: {}", msg);
            assert!(
                msg.contains("rules.prism.yaml"),
                "应包含 file 名称: {}",
                msg
            );
        }
        other => panic!("Expected CompileError::DependencyNotFound, got {:?}", other),
    }
}

#[test]
fn test_from_prism_error_to_compile_error_io() {
    let io_err = std::io::Error::new(std::io::ErrorKind::PermissionDenied, "access denied");
    let prism_err = PrismError::Io {
        detail: io_err.to_string(),
        source: io_err,
    };
    let compile_err: CompileError = prism_err.into();

    match &compile_err {
        CompileError::Io(io) => {
            assert_eq!(io.kind(), std::io::ErrorKind::PermissionDenied);
        }
        other => panic!("Expected CompileError::Io, got {:?}", other),
    }
}

#[test]
fn test_transform_warning_display() {
    let warning = TransformWarning {
        node_index: 3,
        node_name: "proxy-groups".to_string(),
        field: "name".to_string(),
        hint: "field is required for GUI rendering".to_string(),
    };
    let display = warning.message();
    assert!(
        display.contains("proxy-groups"),
        "Display 应包含 node_name: {}",
        display
    );
    assert!(
        display.contains("name"),
        "Display 应包含 field: {}",
        display
    );
    assert!(
        display.contains("field is required for GUI rendering"),
        "Display 应包含 hint: {}",
        display
    );
}

#[test]
fn a_system_fault_is_kept_whole() {
    let io_err = std::io::Error::new(std::io::ErrorKind::PermissionDenied, "access denied");
    let fault = CompileError::from(PrismError::from(io_err));
    assert_eq!(fault.message(), "IO 错误: IO 错误: access denied");
    match fault {
        CompileError::Io(IoFault::Engine { detail, source }) => {
            assert_eq!(detail, "access denied");
            assert_eq!(source.to_string(), "access denied");
            assert_eq!(source.kind(), std::io::ErrorKind::PermissionDenied);
        }
        other => panic!("unexpected {:?}", other),
    }
    let gone = std::io::Error::new(std::io::ErrorKind::NotFound, "gone");
    let fault = CompileError::from(gone);
    assert_eq!(fault.message(), "IO 错误: gone");
    match &fault {
        CompileError::Io(io) => {
            assert!(matches!(io, IoFault::System(_)));
            assert_eq!(io.kind(), std::io::ErrorKind::NotFound);
            assert_eq!(io.system_error().to_string(), "gone");
        }
        other => panic!("unexpected {:?}", other),
    }
    let broken = serde_json::from_str::<bool>("x").unwrap_err();
    let text = format!("序列化错误: {}", broken);
    assert_eq!(CompileError::from(broken).message(), text);
}
