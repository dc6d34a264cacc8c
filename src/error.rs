use vstd::prelude::*;

verus! {

/// The ways an editing request can fail.
#[derive(Debug, Clone, PartialEq, Eq)]
pub enum EditError {
    /// An external executable could not be found on the search path.
    ToolNotFound(String),
    /// An input file named by the request does not exist.
    InputNotFound(String),
    /// A colour is not six hexadecimal digits, with an optional leading `#`.
    InvalidColor,
    /// A duration or number is not a decimal number that fits the model.
    InvalidNumber,
    /// A split was asked for zero parts.
    ZeroParts,
    /// The input to trim holds no video stream.
    NoVideoStream,
    /// An external command ended with a failure status; holds its error text.
    CommandFailed(String),
    /// A filesystem operation failed; holds the reason.
    Filesystem(String),
}

} // verus!
