//! What can be wrong with ingested data.

use vstd::prelude::*;

verus! {

/// A field of the ingested data is missing or has the wrong shape. Each
/// variant names the field; `index` is the position of the offending element
/// in its array.
#[derive(Clone, Copy, Debug, PartialEq, Eq, Structural)]
pub enum DataFormatError {
    /// The coordinate system has no name that is a string.
    SystemName,
    /// The coordinate system has no array of chromosomes.
    Chromosomes,
    /// A chromosome has no name that is a string.
    ChromosomeName { index: usize },
    /// A chromosome has no length that is a whole number from 0 to the
    /// largest `usize`.
    ChromosomeLength { index: usize },
    /// The dataset is not an array.
    Records,
    /// A record has no chromosome name that is a string.
    RecordChromosome { index: usize },
    /// A record has no position that is a whole number from 0 to the
    /// largest `usize`.
    RecordPosition { index: usize },
    /// A record has no value that is a number.
    RecordValue { index: usize },
}

} // verus!
