//! The errors of the library.

use vstd::prelude::*;

verus! {

/// Why a quantization request was refused.
#[derive(Clone, Copy, Debug, PartialEq, Eq, Structural)]
pub enum QuantizeError {
    /// The declared width and height do not describe the byte buffer.
    ShapeMismatch,
    /// The requested number of colors is outside `1..=256`.
    InvalidColorCount,
    /// The dithering level is not a number in `[0.0, 1.0]`.
    InvalidDitherLevel,
    /// An index buffer names a palette entry that does not exist.
    CorruptIndex,
}

impl QuantizeError {
    /// A short description of the error.
    pub fn message(&self) -> (text: String)
        ensures
            text@ == match *self {
                QuantizeError::ShapeMismatch => "width and height do not match the buffer length"@,
                QuantizeError::InvalidColorCount => "color count must be between 1 and 256"@,
                QuantizeError::InvalidDitherLevel => "dithering level must be between 0.0 and 1.0"@,
                QuantizeError::CorruptIndex => "index buffer refers outside the palette"@,
            },
    {
        match self {
            QuantizeError::ShapeMismatch => "width and height do not match the buffer length".to_string(),
            QuantizeError::InvalidColorCount => "color count must be between 1 and 256".to_string(),
            QuantizeError::InvalidDitherLevel => "dithering level must be between 0.0 and 1.0".to_string(),
            QuantizeError::CorruptIndex => "index buffer refers outside the palette".to_string(),
        }
    }
}

} // verus!
