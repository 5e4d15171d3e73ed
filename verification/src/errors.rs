use vstd::prelude::*;

verus! {

/// The errors the counting core can report.
///
/// `KmerLengthTooSmall` and `KmerLengthTooLong` are fatal to one counting
/// pass: no partial output is produced. `IncorrectBases` is a non-fatal
/// advisory from base validation; counting proceeds regardless.
#[derive(Debug, PartialEq, Eq)]
pub enum KmerError {
    /// The requested k-mer length was not a positive integer.
    KmerLengthTooSmall { k: usize },
    /// The requested k-mer length exceeds the sequence length, so no
    /// window exists.
    KmerLengthTooLong { k: usize, seq_len: usize },
    /// Symbols outside the A/T/C/G alphabet were seen. `bases` holds the
    /// distinct offending symbols, in order of first occurrence.
    IncorrectBases { bases: Vec<u8> },
}

} // verus!
