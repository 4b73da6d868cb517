use vstd::prelude::*;

verus! {

/// Errors reported while decoding a PennFat image.
#[derive(Debug)]
pub enum PfError {
    /// Reading the backing file failed; the text describes the failure.
    Io(String),
    /// The image length does not match the geometry its header declares.
    FileSize,
    /// A block number outside `1..=max`; holds the requested number and `max`.
    InvalidBlockNumber(u16, u16),
    /// A block chain visits more blocks than the data region holds.
    CyclicChain,
}

} // verus!
