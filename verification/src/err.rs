//! The ways an operation of the store can fail.
use vstd::prelude::*;

verus! {

/// An error reported by the storage engine.
#[derive(Debug)]
pub enum StorageEngineError {
    /// The largest key was asked of an index that holds no key.
    BiggestKeyIndexError,
    /// The smallest key was asked of an index that holds no key.
    LowestKeyIndexError,
    /// A file ended in the middle of a record.
    UnexpectedEOF,
    /// An entry does not fit into the block it was offered to.
    BlockIsFullError,
    /// A table's data would extend beyond what a four-byte offset can address.
    TableSizeOverflowError,
    /// A key or a value is longer than a four-byte length can say.
    RecordTooLargeError,
    /// The collector was given answers for another number of records than
    /// the chunk it collects holds.
    GcLookupMismatchError,
    /// A table could not be placed in a bucket; the text says why.
    FailedToInsertToBucket(String),
    /// The flush notification could not be queued because the channel was full.
    FlushSignalOverflowError,
    /// The flush notification could not be delivered because the channel has no listener.
    FlushSignalClosedError,
}

impl StorageEngineError {
    /// Whether the error leaves the finished operation valid: a lost
    /// notification degrades the engine, every other error fails the operation.
    pub open spec fn is_degraded(self) -> bool {
        self is FlushSignalOverflowError || self is FlushSignalClosedError
    }

    /// Tells a degradation from a failure.
    pub fn degraded(&self) -> (b: bool)
        ensures
            b == self.is_degraded(),
    {
        match self {
            StorageEngineError::FlushSignalOverflowError => true,
            StorageEngineError::FlushSignalClosedError => true,
            _ => false,
        }
    }
}

} // verus!
