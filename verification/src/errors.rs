use vstd::prelude::*;

verus! {

/// Failure taxonomy shared by the whole parsing core.
///
/// Transport-level failures (a network error from the HTTP client) are the
/// external collaborator's concern: the glue around the library wraps them in
/// its own error type and never hands them to the core.
#[derive(Clone, Copy, Debug, PartialEq, Eq, Structural)]
pub enum StribotError {
    /// A source answered with a non-success HTTP status.
    StatusError,
    /// The expected temperature pattern is absent from the body.
    NotFound,
    /// Matched text does not decode to a valid number or timestamp.
    ParseError,
    /// No valid rows survived row-level filtering.
    EmptyInput,
}

} // verus!
