//! Errors of the API.
use vstd::prelude::*;
use crate::text::copy_string;

verus! {

/// An error answered by the API.
#[derive(Clone, Debug)]
pub enum ApiError {
    PasswordIncorrect,
    NameExists,
    InvalidImageId,
    EmailExists,
    NoContentDisposition,
    ChapterVersionAlreadyExists,
    ExpiredToken,
    NotFoundInDB,
    WrongResetToken,
    WriteError(String),
    MultiPart(String),
    InvalidInput(String),
    InvalidActivationToken,
    Bcrypt(String),
    FailedToEncodeToken(String),
}

/// Mathematical model of an [`ApiError`].
pub enum ApiErrorV {
    PasswordIncorrect,
    NameExists,
    InvalidImageId,
    EmailExists,
    NoContentDisposition,
    ChapterVersionAlreadyExists,
    ExpiredToken,
    NotFoundInDB,
    WrongResetToken,
    WriteError(Seq<char>),
    MultiPart(Seq<char>),
    InvalidInput(Seq<char>),
    InvalidActivationToken,
    Bcrypt(Seq<char>),
    FailedToEncodeToken(Seq<char>),
}

impl View for ApiError {
    type V = ApiErrorV;

    open spec fn view(&self) -> ApiErrorV {
        match self {
            ApiError::PasswordIncorrect => ApiErrorV::PasswordIncorrect,
            ApiError::NameExists => ApiErrorV::NameExists,
            ApiError::InvalidImageId => ApiErrorV::InvalidImageId,
            ApiError::EmailExists => ApiErrorV::EmailExists,
            ApiError::NoContentDisposition => ApiErrorV::NoContentDisposition,
            ApiError::ChapterVersionAlreadyExists => ApiErrorV::ChapterVersionAlreadyExists,
            ApiError::ExpiredToken => ApiErrorV::ExpiredToken,
            ApiError::NotFoundInDB => ApiErrorV::NotFoundInDB,
            ApiError::WrongResetToken => ApiErrorV::WrongResetToken,
            ApiError::WriteError(m) => ApiErrorV::WriteError(m@),
            ApiError::MultiPart(m) => ApiErrorV::MultiPart(m@),
            ApiError::InvalidInput(m) => ApiErrorV::InvalidInput(m@),
            ApiError::InvalidActivationToken => ApiErrorV::InvalidActivationToken,
            ApiError::Bcrypt(m) => ApiErrorV::Bcrypt(m@),
            ApiError::FailedToEncodeToken(m) => ApiErrorV::FailedToEncodeToken(m@),
        }
    }
}

/// `r` is the invalid-input error with message `msg`.
pub open spec fn is_invalid_input(r: ApiError, msg: Seq<char>) -> bool {
    r matches ApiError::InvalidInput(m) && m@ == msg
}

/// `r` is the write error with message `msg`.
pub open spec fn is_write_error(r: ApiError, msg: Seq<char>) -> bool {
    r matches ApiError::WriteError(m) && m@ == msg
}

/// A result that failed with the invalid-input error `msg`.
pub open spec fn fails_with<T>(r: Result<T, ApiError>, msg: Seq<char>) -> bool {
    r matches Err(e) && is_invalid_input(e, msg)
}

impl ApiError {
    /// A database failure, reported as a write error.
    pub fn db_error(msg: &str) -> (r: Self)
        ensures
            is_write_error(r, msg@),
    {
        Self::WriteError(msg.to_owned())
    }

    /// A write error.
    pub fn write_error(msg: &str) -> (r: Self)
        ensures
            is_write_error(r, msg@),
    {
        Self::WriteError(msg.to_owned())
    }

    /// An invalid-input error.
    pub fn invalid_input(msg: &str) -> (r: Self)
        ensures
            is_invalid_input(r, msg@),
    {
        ApiError::InvalidInput(msg.to_owned())
    }

    /// An error while reading a multipart upload.
    pub fn multipart_read_error(msg: &str) -> (r: Self)
        ensures
            r matches ApiError::MultiPart(m) && m@ == msg@,
    {
        Self::MultiPart(msg.to_owned())
    }

    /// An invalid-input error carrying an owned message.
    pub fn invalid_input_string(msg: &String) -> (r: Self)
        ensures
            is_invalid_input(r, msg@),
    {
        ApiError::InvalidInput(copy_string(msg))
    }

    /// A write error carrying an owned message.
    pub fn write_error_string(msg: &String) -> (r: Self)
        ensures
            is_write_error(r, msg@),
    {
        ApiError::WriteError(copy_string(msg))
    }

    /// The HTTP status every API error is answered with: 400 Bad Request.
    pub fn status_code(&self) -> (r: u16)
        ensures
            r == 400,
    {
        400
    }
}

} // verus!
