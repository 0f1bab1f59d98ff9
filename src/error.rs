use vstd::prelude::*;

verus! {

/// What can go wrong in the compression core.
#[derive(Debug, Clone, Copy, PartialEq, Eq, Structural)]
pub enum CodecError {
    /// An operation that needs at least one symbol was given none.
    EmptyInput,
    /// The encoder met a symbol that the code dictionary does not hold.
    SymbolNotInDictionary,
    /// The bits ran out in the middle of a code word or of a tree node.
    TruncatedStream,
    /// The length trailer of a packed bit stream is malformed.
    InvalidStream,
}

} // verus!
