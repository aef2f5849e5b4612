//! Errors a request ends with, independent of the transport that answers it.
use vstd::prelude::*;

use crate::text::extend_chars;
use crate::text::string_of;

verus! {

/// Why a request failed.
#[derive(Debug, Clone, PartialEq, Eq)]
pub enum AppError {
    /// The entity or suggestion with this id does not exist.
    NotFound(String),
    /// The request is malformed.
    BadRequest(String),
    /// The request is well formed but the stored data cannot serve it.
    Unprocessable(String),
    /// The request conflicts with the stored state; `code` names the case.
    Conflict { code: String, message: String },
    /// The service itself failed.
    Internal(String),
}

/// An `AppError` with its texts as character sequences.
pub ghost enum AppErrorView {
    NotFound(Seq<char>),
    BadRequest(Seq<char>),
    Unprocessable(Seq<char>),
    Conflict { code: Seq<char>, message: Seq<char> },
    Internal(Seq<char>),
}

impl View for AppError {
    type V = AppErrorView;

    open spec fn view(&self) -> AppErrorView {
        match self {
            AppError::NotFound(s) => AppErrorView::NotFound(s@),
            AppError::BadRequest(s) => AppErrorView::BadRequest(s@),
            AppError::Unprocessable(s) => AppErrorView::Unprocessable(s@),
            AppError::Conflict { code, message } => AppErrorView::Conflict {
                code: code@,
                message: message@,
            },
            AppError::Internal(s) => AppErrorView::Internal(s@),
        }
    }
}

impl AppError {
    /// Nothing is stored under `id`.
    pub fn not_found(id: &str) -> (e: AppError)
        ensures
            e@ == AppErrorView::NotFound(id@),
    {
        AppError::NotFound(id.to_owned())
    }

    /// The request is malformed, for the reason `message`.
    pub fn bad_request(message: &str) -> (e: AppError)
        ensures
            e@ == AppErrorView::BadRequest(message@),
    {
        AppError::BadRequest(message.to_owned())
    }

    /// The request cannot be processed, for the reason `message`.
    pub fn unprocessable(message: &str) -> (e: AppError)
        ensures
            e@ == AppErrorView::Unprocessable(message@),
    {
        AppError::Unprocessable(message.to_owned())
    }

    /// The request conflicts with the stored state.
    pub fn conflict(code: &str, message: &str) -> (e: AppError)
        ensures
            e@ == (AppErrorView::Conflict { code: code@, message: message@ }),
    {
        AppError::Conflict { code: code.to_owned(), message: message.to_owned() }
    }

    /// The service failed, for the reason `message`.
    pub fn internal(message: &str) -> (e: AppError)
        ensures
            e@ == AppErrorView::Internal(message@),
    {
        AppError::Internal(message.to_owned())
    }

    /// The HTTP status code the error is answered with.
    pub fn status_code(&self) -> (code: u16)
        ensures
            code == status_code_of(self@),
    {
        match self {
            AppError::NotFound(_) => 404,
            AppError::BadRequest(_) => 400,
            AppError::Unprocessable(_) => 422,
            AppError::Conflict { .. } => 409,
            AppError::Internal(_) => 500,
        }
    }

    /// The body the error is answered with.
    pub fn body(&self) -> (b: ErrorBody)
        ensures
            b@ == error_body_of(self@),
    {
        match self {
            AppError::NotFound(id) => {
                let mut text: Vec<char> = Vec::new();
                extend_chars(&mut text, &not_found_prefix());
                let id_chars = crate::text::chars_of(id.as_str());
                extend_chars(&mut text, &id_chars);
                ErrorBody::Plain(string_of(&text))
            },
            AppError::BadRequest(m) => ErrorBody::Plain(m.clone()),
            AppError::Unprocessable(m) => ErrorBody::Plain(m.clone()),
            AppError::Conflict { code, message } => ErrorBody::Coded {
                code: code.clone(),
                message: message.clone(),
            },
            AppError::Internal(m) => ErrorBody::Plain(m.clone()),
        }
    }
}

/// The HTTP status of each kind of error.
pub open spec fn status_code_of(e: AppErrorView) -> u16 {
    match e {
        AppErrorView::NotFound(_) => 404,
        AppErrorView::BadRequest(_) => 400,
        AppErrorView::Unprocessable(_) => 422,
        AppErrorView::Conflict { .. } => 409,
        AppErrorView::Internal(_) => 500,
    }
}

/// The body of an error answer: `{"error": text}`, or, for a conflict,
/// `{"code": .., "message": .., "details": {}}`.
#[derive(Debug, Clone, PartialEq, Eq)]
pub enum ErrorBody {
    Plain(String),
    Coded { code: String, message: String },
}

/// An `ErrorBody` with its texts as character sequences.
pub ghost enum ErrorBodyView {
    Plain(Seq<char>),
    Coded { code: Seq<char>, message: Seq<char> },
}

impl View for ErrorBody {
    type V = ErrorBodyView;

    open spec fn view(&self) -> ErrorBodyView {
        match self {
            ErrorBody::Plain(s) => ErrorBodyView::Plain(s@),
            ErrorBody::Coded { code, message } => ErrorBodyView::Coded {
                code: code@,
                message: message@,
            },
        }
    }
}

/// `entity not found: `
pub open spec fn not_found_text() -> Seq<char> {
    seq!['e', 'n', 't', 'i', 't', 'y', ' ', 'n', 'o', 't', ' ', 'f', 'o', 'u', 'n', 'd', ':', ' ']
}

fn not_found_prefix() -> (v: Vec<char>)
    ensures
        v@ == not_found_text(),
{
    vec!['e', 'n', 't', 'i', 't', 'y', ' ', 'n', 'o', 't', ' ', 'f', 'o', 'u', 'n', 'd', ':', ' ']
}

/// What the answer to each error says.
pub open spec fn error_body_of(e: AppErrorView) -> ErrorBodyView {
    match e {
        AppErrorView::NotFound(id) => ErrorBodyView::Plain(not_found_text() + id),
        AppErrorView::BadRequest(m) => ErrorBodyView::Plain(m),
        AppErrorView::Unprocessable(m) => ErrorBodyView::Plain(m),
        AppErrorView::Conflict { code, message } => ErrorBodyView::Coded { code, message },
        AppErrorView::Internal(m) => ErrorBodyView::Plain(m),
    }
}

} // verus!
