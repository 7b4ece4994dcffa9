//! What the client binary takes on its command line.
//!
//! Argument parsing itself happens outside the library; the parsed
//! values arrive here as plain data.

use vstd::prelude::*;

verus! {

/// Command-line arguments of the rendering client.
#[derive(Debug)]
pub struct Cli {
    /// The server's host:port.
    pub address: String,
    /// Display name sent in the handshake.
    pub username: Vec<u8>,
    /// Handshake password, when the server requires one.
    pub password: Option<Vec<u8>>,
    /// Prefer the platform's native graphics backend.
    pub metal: bool,
}

} // verus!
