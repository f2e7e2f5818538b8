//! The library's error kinds: operational errors become structured
//! responses; programming errors are logged and answered with a generic 500.
use vstd::prelude::*;

use crate::text::{chars_of, push_chars, string_of};

verus! {

#[derive(Debug)]
pub enum AppError {
    NotFound { resource: String, id: String },
    Validation(String),
    Unauthorized(String),
    PayloadTooLarge(String),
    Unsupported(String),
    /// A database failure; `row_not_found` marks the "no such row" case.
    Database { row_not_found: bool, message: String },
    Internal(String),
}

/// The HTTP status and error code that answer an error.
pub open spec fn status_and_code_spec(e: AppError) -> (u16, Seq<char>) {
    match e {
        AppError::NotFound { .. } => (404, "NOT_FOUND"@),
        AppError::Validation(_) => (422, "VALIDATION_ERROR"@),
        AppError::Unauthorized(_) => (401, "UNAUTHORIZED"@),
        AppError::PayloadTooLarge(_) => (413, "PAYLOAD_TOO_LARGE"@),
        AppError::Unsupported(_) => (415, "UNSUPPORTED_MEDIA"@),
        AppError::Database { row_not_found, .. } => if row_not_found {
            (404, "NOT_FOUND"@)
        } else {
            (500, "INTERNAL_ERROR"@)
        },
        AppError::Internal(_) => (500, "INTERNAL_ERROR"@),
    }
}

/// The error's own text (what `Display` shows).
pub open spec fn message_spec(e: AppError) -> Seq<char> {
    match e {
        AppError::NotFound { resource, id } => resource@ + " 不存在: "@ + id@,
        AppError::Validation(m) => m@,
        AppError::Unauthorized(m) => m@,
        AppError::PayloadTooLarge(m) => m@,
        AppError::Unsupported(m) => m@,
        AppError::Database { message, .. } => message@,
        AppError::Internal(m) => m@,
    }
}

pub open spec fn is_operational_spec(e: AppError) -> bool {
    !(e is Database || e is Internal)
}

impl AppError {
    pub fn not_found(resource: &str, id: String) -> (e: AppError)
        ensures
            e == (AppError::NotFound { resource: e->resource, id }),
            e->resource@ == resource@,
    {
        AppError::NotFound { resource: string_of(&chars_of(resource)), id }
    }

    pub fn validation(message: &str) -> (e: AppError)
        ensures
            e is Validation,
            e->Validation_0@ == message@,
    {
        AppError::Validation(string_of(&chars_of(message)))
    }

    /// The HTTP status and error code that answer this error.
    pub fn status_and_code(&self) -> (r: (u16, &'static str))
        ensures
            (r.0, r.1@) == status_and_code_spec(*self),
    {
        match self {
            AppError::NotFound { .. } => (404, "NOT_FOUND"),
            AppError::Validation(_) => (422, "VALIDATION_ERROR"),
            AppError::Unauthorized(_) => (401, "UNAUTHORIZED"),
            AppError::PayloadTooLarge(_) => (413, "PAYLOAD_TOO_LARGE"),
            AppError::Unsupported(_) => (415, "UNSUPPORTED_MEDIA"),
            AppError::Database { row_not_found, .. } => if *row_not_found {
                (404, "NOT_FOUND")
            } else {
                (500, "INTERNAL_ERROR")
            },
            AppError::Internal(_) => (500, "INTERNAL_ERROR"),
        }
    }

    /// Whether the message may be shown to the user (operational errors may,
    /// programming errors may not).
    pub fn is_operational(&self) -> (r: bool)
        ensures
            r == is_operational_spec(*self),
    {
        match self {
            AppError::Database { .. } | AppError::Internal(_) => false,
            _ => true,
        }
    }

    /// The error's own text.
    pub fn message(&self) -> (m: String)
        ensures
            m@ == message_spec(*self),
    {
        match self {
            AppError::NotFound { resource, id } => {
                let mut out = chars_of(resource.as_str());
                push_chars(&mut out, &chars_of(" 不存在: "));
                push_chars(&mut out, &chars_of(id.as_str()));
                string_of(&out)
            },
            AppError::Validation(m) => m.clone(),
            AppError::Unauthorized(m) => m.clone(),
            AppError::PayloadTooLarge(m) => m.clone(),
            AppError::Unsupported(m) => m.clone(),
            AppError::Database { message, .. } => message.clone(),
            AppError::Internal(m) => m.clone(),
        }
    }

    /// The message that goes into the response: the error's own text for
    /// operational errors, a fixed apology otherwise.
    pub fn public_message(&self) -> (m: String)
        ensures
            m@ == if is_operational_spec(*self) {
                message_spec(*self)
            } else {
                "服务出了点小状况，请稍后再试"@
            },
    {
        if self.is_operational() {
            self.message()
        } else {
            string_of(&chars_of("服务出了点小状况，请稍后再试"))
        }
    }
}

} // verus!
