//! A small remote-execution pipeline: a caller mounts a source project into a
//! server-side shadow directory, then asks the server to run a named function
//! with JSON-encoded arguments.  The server synthesizes a driver program,
//! builds and runs it, and streams log lines followed by one terminal result.
//!
//! The modules here hold the logic of that pipeline: the JSON data model and
//! its grammar, driver-program synthesis, sentinel-envelope extraction, the
//! shadow-project state, and the ordered event stream.  Process spawning and
//! file I/O live outside the library and hand plain values in and out.
use vstd::prelude::*;

pub mod args;
pub mod codec;
pub mod errors;
pub mod json;
pub mod mount;
pub mod parse_file;
pub mod registry;
pub mod server;
pub mod text;
pub mod utils;

verus! {

/// Marker bound satisfied by every value the pipeline moves across the wire.
pub trait BaseBound {

}

impl<T> BaseBound for T {

}

} // verus!
