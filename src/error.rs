use vstd::prelude::*;

verus! {

/// Why a hash table could not be built.
#[derive(Debug, PartialEq, Eq, Structural, Clone, Copy)]
pub enum TableError {
    /// The table size is not a positive integer.
    ConfigError,
    /// Open addressing found no free slot for some record within its probe bound.
    TableFull,
}

} // verus!
