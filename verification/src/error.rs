//! Error codes and the library's error type.
use vstd::prelude::*;

verus! {

/// Error codes shared by the server, the CLI and the SDK.
#[derive(Debug, Clone, Copy, PartialEq, Eq, Hash, Structural)]
pub enum ErrorCode {
    BoxNotFound,
    BoxNotRunning,
    BoxAlreadyRunning,
    ExecNotFound,
    ExecAlreadyFinished,
    ImagePullFailed,
    NameAlreadyExists,
    ResourceExceeded,
    Timeout,
    RuntimeError,
    Canceled,
}

/// The wire name of an error code.
pub open spec fn code_text(code: ErrorCode) -> Seq<char> {
    match code {
        ErrorCode::BoxNotFound => "BOX_NOT_FOUND"@,
        ErrorCode::BoxNotRunning => "BOX_NOT_RUNNING"@,
        ErrorCode::BoxAlreadyRunning => "BOX_ALREADY_RUNNING"@,
        ErrorCode::ExecNotFound => "EXEC_NOT_FOUND"@,
        ErrorCode::ExecAlreadyFinished => "EXEC_ALREADY_FINISHED"@,
        ErrorCode::ImagePullFailed => "IMAGE_PULL_FAILED"@,
        ErrorCode::NameAlreadyExists => "NAME_ALREADY_EXISTS"@,
        ErrorCode::ResourceExceeded => "RESOURCE_EXCEEDED"@,
        ErrorCode::Timeout => "TIMEOUT"@,
        ErrorCode::RuntimeError => "RUNTIME_ERROR"@,
        ErrorCode::Canceled => "CANCELED"@,
    }
}

/// The HTTP status that an error code is answered with.
pub open spec fn code_status(code: ErrorCode) -> u16 {
    match code {
        ErrorCode::BoxNotFound | ErrorCode::ExecNotFound => 404,
        ErrorCode::ResourceExceeded | ErrorCode::NameAlreadyExists
        | ErrorCode::BoxAlreadyRunning => 409,
        _ => 400,
    }
}

impl ErrorCode {
    /// The string form of the code.
    pub fn as_str(&self) -> (s: &'static str)
        ensures
            s@ == code_text(*self),
    {
        match self {
            ErrorCode::BoxNotFound => "BOX_NOT_FOUND",
            ErrorCode::BoxNotRunning => "BOX_NOT_RUNNING",
            ErrorCode::BoxAlreadyRunning => "BOX_ALREADY_RUNNING",
            ErrorCode::ExecNotFound => "EXEC_NOT_FOUND",
            ErrorCode::ExecAlreadyFinished => "EXEC_ALREADY_FINISHED",
            ErrorCode::ImagePullFailed => "IMAGE_PULL_FAILED",
            ErrorCode::NameAlreadyExists => "NAME_ALREADY_EXISTS",
            ErrorCode::ResourceExceeded => "RESOURCE_EXCEEDED",
            ErrorCode::Timeout => "TIMEOUT",
            ErrorCode::RuntimeError => "RUNTIME_ERROR",
            ErrorCode::Canceled => "CANCELED",
        }
    }

    /// The HTTP status code for this error code.
    pub fn http_status(&self) -> (status: u16)
        ensures
            status == code_status(*self),
    {
        match self {
            ErrorCode::BoxNotFound | ErrorCode::ExecNotFound => 404,
            ErrorCode::ResourceExceeded | ErrorCode::NameAlreadyExists
            | ErrorCode::BoxAlreadyRunning => 409,
            _ => 400,
        }
    }

    /// The displayed form of the code, which is its string form.
    pub fn to_string(&self) -> (s: String)
        ensures
            s@ == code_text(*self),
    {
        self.as_str().to_owned()
    }
}

/// An error carrying a code and a human-readable message.
#[derive(Debug, Clone)]
pub struct BoxRunError {
    pub code: ErrorCode,
    pub message: String,
}

impl BoxRunError {
    /// Builds an error from a code and a message.
    pub fn new(code: ErrorCode, message: &str) -> (e: Self)
        ensures
            e.code == code,
            e.message@ == message@,
    {
        BoxRunError { code, message: message.to_owned() }
    }

    /// The HTTP status of the error's code.
    pub fn http_status(&self) -> (status: u16)
        ensures
            status == code_status(self.code),
    {
        self.code.http_status()
    }

    /// The displayed form: the code, a colon and a space, then the message.
    pub fn to_string(&self) -> (s: String)
        ensures
            s@ == code_text(self.code) + ": "@ + self.message@,
    {
        let mut s = self.code.to_string();
        s.append(": ");
        s.append(self.message.as_str());
        s
    }
}

} // verus!
