//! A token is a piece of program text together with its source position.
use vstd::prelude::*;

use crate::location::Location;

verus! {

/// A piece of program text and where it stood in the source.
#[derive(Debug, PartialEq, Eq)]
pub struct Token {
    pub text: String,
    pub location: Location,
}

impl Clone for Token {
    fn clone(&self) -> (r: Self)
        ensures
            r == *self,
    {
        Token { text: self.text.clone(), location: self.location }
    }
}

} // verus!
