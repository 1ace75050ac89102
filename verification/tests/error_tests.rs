use boxrun::error::{BoxRunError, ErrorCode};

#[test]
fn test_error_code_strings() {
    assert_eq!(ErrorCode::BoxNotFound.as_str(), "BOX_NOT_FOUND");
    assert_eq!(ErrorCode::BoxNotRunning.as_str(), "BOX_NOT_RUNNING");
    assert_eq!(ErrorCode::BoxAlreadyRunning.as_str(), "BOX_ALREADY_RUNNING");
    assert_eq!(ErrorCode::ExecNotFound.as_str(), "EXEC_NOT_FOUND");
    assert_eq!(ErrorCode::ExecAlreadyFinished.as_str(), "EXEC_ALREADY_FINISHED");
    assert_eq!(ErrorCode::ImagePullFailed.as_str(), "IMAGE_PULL_FAILED");
    assert_eq!(ErrorCode::NameAlreadyExists.as_str(), "NAME_ALREADY_EXISTS");
    assert_eq!(ErrorCode::ResourceExceeded.as_str(), "RESOURCE_EXCEEDED");
    assert_eq!(ErrorCode::Timeout.as_str(), "TIMEOUT");
    assert_eq!(ErrorCode::RuntimeError.as_str(), "RUNTIME_ERROR");
    assert_eq!(ErrorCode::Canceled.as_str(), "CANCELED");
}

#[test]
fn test_http_status_mapping() {
    assert_eq!(ErrorCode::BoxNotFound.http_status(), 404);
    assert_eq!(ErrorCode::ExecNotFound.http_status(), 404);
    assert_eq!(ErrorCode::ResourceExceeded.http_status(), 409);
    assert_eq!(ErrorCode::NameAlreadyExists.http_status(), 409);
    assert_eq!(ErrorCode::BoxAlreadyRunning.http_status(), 409);
    assert_eq!(ErrorCode::BoxNotRunning.http_status(), 400);
    assert_eq!(ErrorCode::ExecAlreadyFinished.http_status(), 400);
    assert_eq!(ErrorCode::ImagePullFailed.http_status(), 400);
    assert_eq!(ErrorCode::Timeout.http_status(), 400);
    assert_eq!(ErrorCode::RuntimeError.http_status(), 400);
    assert_eq!(ErrorCode::Canceled.http_status(), 400);
}

#[test]
fn test_error_display() {
    let err = BoxRunError::new(ErrorCode::BoxNotFound, "Box 'test' not found");
    assert_eq!(err.to_string(), "BOX_NOT_FOUND: Box 'test' not found");
    assert_eq!(err.http_status(), 404);
}

#[test]
fn code_display_is_its_string() {
    assert_eq!(ErrorCode::Timeout.to_string(), "TIMEOUT");
    let err = BoxRunError::new(ErrorCode::ResourceExceeded, "too much");
    assert_eq!(err.code, ErrorCode::ResourceExceeded);
    assert_eq!(err.message, "too much");
    assert_eq!(err.http_status(), 409);
}
