//! Settings of the server, as its command line provides them.
//!
//! Argument parsing itself happens outside the library; the parsed
//! values arrive here as plain data.

use vstd::prelude::*;

verus! {

/// Configuration the synchronization core consumes.
#[derive(Debug)]
pub struct ServerConfig {
    /// Display name, cosmetic only.
    pub server_name: String,
    /// Handshake password; absent or empty means no authentication.
    pub password: Option<Vec<u8>>,
    /// Enforced when a connection is accepted.
    pub max_clients: usize,
}

/// What the server binary takes on its command line.
#[derive(Debug)]
pub struct Cli {
    /// The host:port to listen on.
    pub address: String,
    pub config: ServerConfig,
}

/// Whether a handshake password opens a session: an absent or empty
/// configured password admits everyone, otherwise the bytes must match.
pub open spec fn spec_password_ok(configured: Option<Seq<u8>>, given: Seq<u8>) -> bool {
    match configured {
        None => true,
        Some(p) => p.len() == 0 || given == p,
    }
}

/// Compares a handshake password against the configured one.
pub fn password_ok(configured: &Option<Vec<u8>>, given: &Vec<u8>) -> (r: bool)
    ensures
        r == spec_password_ok(
            match configured {
                Some(p) => Some(p@),
                None => None,
            },
            given@,
        ),
{
    match configured {
        None => true,
        Some(p) => {
            if p.len() == 0 {
                true
            } else {
                bytes_eq(given, p)
            }
        },
    }
}

/// Byte-for-byte equality of two buffers.
pub fn bytes_eq(a: &Vec<u8>, b: &Vec<u8>) -> (r: bool)
    ensures
        r == (a@ == b@),
{
    if a.len() != b.len() {
        proof {
            assert(a@ != b@);
        }
        return false;
    }
    let mut i: usize = 0;
    while i < a.len()
        invariant
            a@.len() == b@.len(),
            i <= a@.len(),
            forall|j: int| 0 <= j < i ==> a@[j] == b@[j],
        decreases a@.len() - i,
    {
        if a[i] != b[i] {
            proof {
                assert(a@[i as int] != b@[i as int]);
                assert(a@ != b@);
            }
            return false;
        }
        i = i + 1;
    }
    proof {
        assert(a@ =~= b@);
    }
    true
}

} // verus!
