use vstd::prelude::*;

use crate::rng::random_below;

verus! {

/// Uniform over the printable ASCII characters, space to tilde.
#[derive(Debug, Clone, Copy, PartialEq, Eq, Structural)]
pub struct PrintableAscii;

impl PrintableAscii {
    /// A printable ASCII byte.
    pub fn sample_u8(&self) -> (r: u8)
        ensures
            32 <= r <= 126,
    {
        32 + random_below(95) as u8
    }

    /// A printable ASCII character.
    pub fn sample_char(&self) -> (r: char)
        ensures
            ' ' <= r <= '~',
    {
        let b = self.sample_u8();
        b as char
    }
}

} // verus!
