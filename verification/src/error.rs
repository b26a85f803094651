use vstd::prelude::*;

verus! {

/// The error taxonomy of the library.
///
/// Every fallible operation of the library reports one of these kinds.
/// `PathError` is kept distinct from `IOError` on purpose: it signals a
/// security-relevant rejection by the path sandbox, not an environment fault.
#[derive(Clone, Copy, Debug, PartialEq, Eq, Structural)]
pub enum AppError {
    /// A caller-supplied path tried to escape its sandbox.
    PathError,
    /// The target filesystem entry does not exist.
    NotFound,
    /// A filesystem or OS operation failed.
    IOError,
    /// A byte range does not fit the target file.
    RangeError,
    /// Archive generation failed.
    ArchiveError,
    /// The media subprocess could not be spawned or streamed.
    TranscodeError,
    /// The OS reported a timestamp before the epoch.
    ClockError,
    /// A catalog read or write failed.
    DbError,
}

/// The wording of each error kind.
pub open spec fn message_spec(e: AppError) -> Seq<char> {
    match e {
        AppError::PathError => ("path error")@,
        AppError::NotFound => ("not found")@,
        AppError::IOError => ("io error")@,
        AppError::RangeError => ("range error")@,
        AppError::ArchiveError => ("archive error")@,
        AppError::TranscodeError => ("transcode error")@,
        AppError::ClockError => ("clock error")@,
        AppError::DbError => ("db error")@,
    }
}

impl AppError {
    /// A short description of the error, for logs and failure responses.
    pub fn message(&self) -> (m: &'static str)
        ensures
            m@ == message_spec(*self),
    {
        match self {
            AppError::PathError => "path error",
            AppError::NotFound => "not found",
            AppError::IOError => "io error",
            AppError::RangeError => "range error",
            AppError::ArchiveError => "archive error",
            AppError::TranscodeError => "transcode error",
            AppError::ClockError => "clock error",
            AppError::DbError => "db error",
        }
    }
}

} // verus!
