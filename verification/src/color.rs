//! Player colors, one byte per RGB channel.
//!
//! The server picks a random color for every player it accepts. The
//! only trusted call of this module is the draw of the random seed;
//! turning a seed into a color is ordinary verified code.

use vstd::prelude::*;

verus! {

/// A color in RGB form.
#[derive(Clone, Copy, Debug, PartialEq, Eq, Structural)]
pub struct Color {
    pub r: u8,
    pub g: u8,
    pub b: u8,
}

/// Relies on rand::random for one machine-random 64-bit value; nothing
/// is promised of the outcome.
#[verifier::external_body]
fn random_u64() -> u64 {
    rand::random::<u64>()
}

impl Color {
    /// The color whose channels are the three low bytes of a seed.
    pub fn from_seed(seed: u64) -> (c: Color)
        ensures
            c == Color::spec_from_seed(seed),
    {
        Color {
            r: (seed % 256) as u8,
            g: ((seed / 256) % 256) as u8,
            b: ((seed / 65536) % 256) as u8,
        }
    }

    /// What `from_seed` builds from a given seed.
    pub open spec fn spec_from_seed(seed: u64) -> Color {
        Color {
            r: (seed % 256) as u8,
            g: ((seed / 256) % 256) as u8,
            b: ((seed / 65536) % 256) as u8,
        }
    }

    /// A randomly chosen color; every value of `Color` is a possible
    /// outcome, so nothing further can be said of the result.
    pub fn random() -> Color {
        Color::from_seed(random_u64())
    }
}

} // verus!
