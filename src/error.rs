use vstd::prelude::*;

verus! {

/// The kinds of failure the library reports.
#[derive(Clone, Copy, Debug, PartialEq, Eq, Structural)]
pub enum ErrorKind {
    General,
    InvalidInt,
    InvalidRange,
    InvalidUnit,
    InvalidDateTime,
    InvalidFormat,
    MissingTypeMetadata,
    InvalidMapKey,
    UnsupportedType,
    InvalidData,
    ExecutionFailure,
}

/// An error with its kind and a message for the user.
#[derive(Clone, Debug)]
pub struct AppError {
    pub kind: ErrorKind,
    pub message: String,
}

pub type AppResult<T> = Result<T, AppError>;

impl AppError {
    /// An error of no particular kind carrying `msg`.
    pub fn general(msg: String) -> (r: AppError)
        ensures
            r.kind == ErrorKind::General,
            r.message@ == msg@,
    {
        AppError { kind: ErrorKind::General, message: msg }
    }

    /// An error of the given kind carrying `msg`.
    pub fn of_kind(kind: ErrorKind, msg: &str) -> (r: AppError)
        ensures
            r.kind == kind,
            r.message@ == msg@,
    {
        AppError { kind, message: msg.to_owned() }
    }

    /// The message shown to the user.
    pub fn to_string(&self) -> (r: String)
        ensures
            r@ == self.message@,
    {
        self.message.clone()
    }
}

} // verus!
