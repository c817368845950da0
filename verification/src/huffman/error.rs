//! The ways in which encoding and decoding fail.

use vstd::prelude::*;
use vstd::string::StringExecFns;

verus! {

/// Why a text could not be encoded or a container could not be decoded.
#[derive(Clone, Copy, Debug, PartialEq, Eq, Structural)]
pub enum HuffmanError {
    /// The text to encode holds no symbol.
    EmptyInput,
    /// The container is shorter than its header, or announces a tree that
    /// does not fit into it.
    MalformedInput,
    /// The tree section or the payload of the container is corrupt or cut
    /// short.
    DecodeError,
    /// The text has so many distinct symbols that the length of its tree
    /// cannot be written in the two bytes of the header.
    TreeTooLarge,
}

impl HuffmanError {
    /// A short sentence for the user.
    pub fn message(&self) -> (text: String)
        ensures
            text@ == match *self {
                HuffmanError::EmptyInput => "Input string is empty."@,
                HuffmanError::MalformedInput => "Malformed input."@,
                HuffmanError::DecodeError => "Corrupt or truncated data."@,
                HuffmanError::TreeTooLarge => "Too many distinct symbols."@,
            },
    {
        match self {
            HuffmanError::EmptyInput => String::from_str("Input string is empty."),
            HuffmanError::MalformedInput => String::from_str("Malformed input."),
            HuffmanError::DecodeError => String::from_str("Corrupt or truncated data."),
            HuffmanError::TreeTooLarge => String::from_str("Too many distinct symbols."),
        }
    }
}

} // verus!
