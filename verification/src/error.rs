//! The error that parsing can end in.

use vstd::prelude::*;

verus! {

/// The reason a digit string is rejected.
#[derive(Clone, Copy, Debug, PartialEq, Eq)]
pub enum ParseError {
    /// The input holds this character, which occurs in no token. It is the
    /// first such character of the input.
    InvalidCharacter(char),
}

} // verus!
