//! Tests for the error type and the context extension.

use rustowl::error::{ErrorContext, RustOwlError};

#[test]
fn test_error_context_with_successful_operations() {
    // Context does not interfere with successful operations
    let result: std::result::Result<i32, std::io::Error> = Ok(42);
    let with_context = result.context("this context should not be used");
    assert_eq!(with_context.unwrap(), 42);

    let option: Option<i32> = Some(100);
    let with_context = option.context("this context should not be used");
    assert_eq!(with_context.unwrap(), 100);
}

#[test]
fn error_context_attaches_message_on_failure() {
    let result: std::result::Result<i32, std::io::Error> =
        Err(std::io::Error::new(std::io::ErrorKind::NotFound, "file not found"));
    match result.context("additional context") {
        Err(RustOwlError::Analysis(msg)) => assert_eq!(msg, "additional context"),
        _ => panic!("Expected Analysis error with context"),
    }

    let option: Option<i32> = None;
    match option.context("option was None") {
        Err(RustOwlError::Analysis(msg)) => assert_eq!(msg, "option was None"),
        _ => panic!("Expected Analysis error with context"),
    }
}

#[test]
fn error_with_context_uses_closure_message() {
    let result: std::result::Result<i32, std::io::Error> =
        Err(std::io::Error::new(std::io::ErrorKind::NotFound, "test"));
    match result.with_context(|| "dynamic context".to_string()) {
        Err(RustOwlError::Analysis(msg)) => assert_eq!(msg, "dynamic context"),
        _ => panic!("Expected Analysis error with dynamic context"),
    }
}

#[test]
fn error_messages_carry_variant_prefixes() {
    let cases = vec![
        (RustOwlError::Io("x".to_string()), "I/O error: x"),
        (RustOwlError::CargoMetadata("x".to_string()), "Cargo metadata error: x"),
        (RustOwlError::Toolchain("x".to_string()), "Toolchain error: x"),
        (RustOwlError::Json("x".to_string()), "JSON error: x"),
        (RustOwlError::Cache("x".to_string()), "Cache error: x"),
        (RustOwlError::Lsp("x".to_string()), "LSP error: x"),
        (RustOwlError::Analysis("x".to_string()), "Analysis error: x"),
        (RustOwlError::Config("x".to_string()), "Configuration error: x"),
    ];
    for (err, expected) in cases {
        assert_eq!(err.message(), expected);
    }
}
