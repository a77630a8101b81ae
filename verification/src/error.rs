//! What can go wrong.
use vstd::prelude::*;

verus! {

/// Why an operation was refused.
#[derive(Debug, Clone, Copy, PartialEq, Eq)]
pub enum OpenFstError {
    /// The arguments do not meet what the operation asks for.
    InvalidOperation(&'static str),
    /// Two symbol tables disagree.
    SymbolTable(&'static str),
    /// A stream does not begin with the header it should.
    InvalidFstHeader(&'static str),
    /// A stream ends, or holds something other than what was expected.
    Io(&'static str),
}

impl OpenFstError {
    /// The message that goes with the error.
    pub fn message(&self) -> (text: &'static str)
        ensures
            match *self {
                OpenFstError::InvalidOperation(m) => text == m,
                OpenFstError::SymbolTable(m) => text == m,
                OpenFstError::InvalidFstHeader(m) => text == m,
                OpenFstError::Io(m) => text == m,
            },
    {
        match self {
            OpenFstError::InvalidOperation(m) => *m,
            OpenFstError::SymbolTable(m) => *m,
            OpenFstError::InvalidFstHeader(m) => *m,
            OpenFstError::Io(m) => *m,
        }
    }
}

} // verus!
