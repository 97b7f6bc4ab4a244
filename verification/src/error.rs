//! Why a text is refused by the strict decoder.
use vstd::prelude::*;

verus! {

/// Why a text is not Base32768.
#[derive(Debug, Clone, Copy, PartialEq, Eq, Structural)]
pub enum DecodeError {
    /// A character outside both repertoires; a UTF-16 surrogate is named as NUL.
    UnrecognizedCharacter(char),
    /// A seven-bit character before the end of the text, at the given UTF-16 position.
    UnexpectedSecondaryCharacter(usize),
    /// The bits that pad the last character are not all ones.
    PaddingMismatch,
}

} // verus!
