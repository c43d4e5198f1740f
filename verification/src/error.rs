//! The ways in which building, loading or querying an index fails.

use vstd::prelude::*;

verus! {

/// Why an index could not be built or loaded, or a query not answered.
#[derive(Clone, Copy, Debug, PartialEq, Eq, Structural)]
pub enum IndexError {
    /// The source of the reference sequence holds no line of symbols.
    EmptySequence,
    /// The bytes are no image of an index: they end early, or what they hold
    /// is not the suffix array and prefix table of their text.
    CorruptIndex,
    /// The query is shorter than the prefixes of the table, or no suffix of
    /// the text starts with its first symbols.
    UnindexedPrefix,
    /// The word is not the name of a search mode.
    InvalidMode,
    /// The query holds a symbol outside the alphabet.
    ForeignSymbol,
}

} // verus!
