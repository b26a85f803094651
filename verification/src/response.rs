use vstd::prelude::*;

verus! {

/// Whether a response envelope reports success or failure.
///
/// On the wire the status is a small integer; `code` gives that encoding.
#[derive(Clone, Copy, Debug, PartialEq, Eq, Structural)]
pub enum AppResponseStatus {
    Success,
    Error,
}

impl AppResponseStatus {
    /// The wire encoding of the status: 0 for success, 1 for error.
    pub fn code(&self) -> (c: i32)
        ensures
            c == (if self is Success { 0int } else { 1int }),
    {
        match self {
            AppResponseStatus::Success => 0,
            AppResponseStatus::Error => 1,
        }
    }
}

/// The payload of a response that carries no data.
#[derive(Clone, Copy, Debug, PartialEq, Eq, Structural)]
pub struct EmptyResponseData {}

impl EmptyResponseData {
    pub fn new() -> (r: EmptyResponseData)
        ensures
            r == (EmptyResponseData {}),
    {
        EmptyResponseData {}
    }
}

} // verus!
