//! The pipeline's error taxonomy.  Every failure a caller can see is one of
//! these variants, each carrying a human-readable message.
use vstd::prelude::*;

verus! {

/// One error domain of the pipeline.
///
/// - `CompileError`: the toolchain rejected the synthesized program; the
///   message is the captured diagnostic output.
/// - `FunctionError`: the target function itself returned an error value.
/// - `ServerError`: a server-side step (file write, subprocess spawn) failed.
/// - `OtherError`: anything that fits no other domain.
/// - `ConnectionError`: the transport between caller and server failed.
/// - `SerializationError`: an argument blob or a result envelope was not the
///   JSON shape the pipeline expects.
#[derive(Debug, Clone)]
pub enum MiniModalError {
    CompileError(String),
    FunctionError(String),
    ServerError(String),
    OtherError(String),
    ConnectionError(String),
    SerializationError(String),
}

impl MiniModalError {
    /// The message carried by the error, whatever its domain.
    pub fn message(&self) -> (r: &String)
        ensures
            r@ == self.message_spec(),
    {
        match self {
            MiniModalError::CompileError(m) => m,
            MiniModalError::FunctionError(m) => m,
            MiniModalError::ServerError(m) => m,
            MiniModalError::OtherError(m) => m,
            MiniModalError::ConnectionError(m) => m,
            MiniModalError::SerializationError(m) => m,
        }
    }

    /// The message of the error, as a mathematical sequence of characters.
    pub open spec fn message_spec(&self) -> Seq<char> {
        match self {
            MiniModalError::CompileError(m) => m@,
            MiniModalError::FunctionError(m) => m@,
            MiniModalError::ServerError(m) => m@,
            MiniModalError::OtherError(m) => m@,
            MiniModalError::ConnectionError(m) => m@,
            MiniModalError::SerializationError(m) => m@,
        }
    }
}

} // verus!
