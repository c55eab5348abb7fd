//! Errors of trie construction.
use vstd::prelude::*;

verus! {

/// Why a trie could not be built from the given keys.
#[derive(Clone, Copy, Debug, PartialEq, Eq)]
pub enum CrawdadError {
    /// No key was given.
    EmptyInput,
    /// A key of zero length was given.
    EmptyKey,
    /// Two adjacent keys are equal.
    DuplicateKey,
    /// A key is less than the key before it.
    UnsortedInput,
    /// The number of keys, a value, or the node index space exceeds the
    /// 31-bit domain.
    CapacityExceeded,
}

impl CrawdadError {
    /// A short description of the error.
    pub fn message(&self) -> (r: &'static str)
        ensures
            r@ == match self {
                CrawdadError::EmptyInput => "input must not be empty"@,
                CrawdadError::EmptyKey => "input must not contain empty keys"@,
                CrawdadError::DuplicateKey => "input must not contain duplicate keys"@,
                CrawdadError::UnsortedInput => "input must be sorted"@,
                CrawdadError::CapacityExceeded => "input or trie exceeds the 31-bit capacity"@,
            },
    {
        match self {
            CrawdadError::EmptyInput => "input must not be empty",
            CrawdadError::EmptyKey => "input must not contain empty keys",
            CrawdadError::DuplicateKey => "input must not contain duplicate keys",
            CrawdadError::UnsortedInput => "input must be sorted",
            CrawdadError::CapacityExceeded => "input or trie exceeds the 31-bit capacity",
        }
    }
}

} // verus!
