use vstd::prelude::*;

verus! {

/// Why a record or table could not be decoded.
#[derive(Debug, Clone, Copy, PartialEq, Eq, Structural)]
pub enum FontError {
    /// A computed read reaches past the end of the bytes it reads from.
    OutOfBounds,
    /// A length or count field asks for more bytes than are present.
    Truncated,
    /// A structural rule of the format is broken.
    InvalidFormat,
    /// The input is larger than the configured ceiling.
    ResourceLimitExceeded,
}

} // verus!
