//! Top-level error wrappers: a codec failure or a failure of the
//! surrounding input/output layer.

use vstd::prelude::*;

verus! {

/// Why writing a configuration out can fail.
#[derive(Debug, PartialEq, Eq, Structural)]
pub enum WriteError {
    /// The encoder refused the configuration.
    Gromos87(crate::gromos87::WriteError),
    /// The surrounding layer could not open or write the destination;
    /// raised by callers that perform the actual output.
    IoError,
}

/// Why reading a configuration in can fail.
#[derive(Debug, PartialEq, Eq, Structural)]
pub enum ReadError {
    /// The decoder refused the text.
    Gromos87(crate::gromos87::ReadError),
    /// The surrounding layer could not open or read the source; raised by
    /// callers that perform the actual input.
    IoError,
}

} // verus!
