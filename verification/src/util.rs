//! Random identifiers drawn from the lower-case alphanumeric alphabet.

use rand::RngExt;
use vstd::prelude::*;

verus! {

/// Number of characters in the lower-case alphanumeric alphabet.
pub const ALPHABET_LEN: usize = 36;

/// The character at `offset` of the alphabet `a..=z` followed by `0..=9`.
pub open spec fn lower_alnum_at(offset: int) -> char {
    if offset < 26 {
        (97 + offset) as char
    } else {
        (48 + offset - 26) as char
    }
}

/// `c` is a lower-case ASCII letter or an ASCII digit.
pub open spec fn is_lower_alnum(c: char) -> bool {
    ('a' <= c && c <= 'z') || ('0' <= c && c <= '9')
}

/// A uniform distribution over the characters `a..=z` and `0..=9`.
pub struct LowerAlphanumeric;

impl LowerAlphanumeric {
    /// The character of the alphabet at position `offset`.
    pub fn char_at(&self, offset: usize) -> (c: char)
        requires
            offset < ALPHABET_LEN,
        ensures
            c == lower_alnum_at(offset as int),
            is_lower_alnum(c),
    {
        if offset < 26 {
            let b: u8 = 97u8 + offset as u8;
            b as char
        } else {
            let b: u8 = 48u8 + (offset - 26) as u8;
            b as char
        }
    }

    /// Draws one character of the alphabet at random.
    pub fn sample(&self) -> (c: char)
        ensures
            is_lower_alnum(c),
    {
        let offset = random_below(ALPHABET_LEN);
        self.char_at(offset)
    }
}

/// Draws an index uniformly from `0..bound` with the thread-local generator
/// (`rand::rng()` and `RngExt::random_range`); the claim is only that the
/// index lies in the range, which the range sampler guarantees.
#[verifier::external_body]
pub(crate) fn random_below(bound: usize) -> (r: usize)
    requires
        bound > 0,
    ensures
        r < bound,
{
    rand::rng().random_range(0..bound)
}

} // verus!
