//! An embedded log-structured key–value store with value separation.
//!
//! Keys and value pointers live in sorted, immutable tables grouped into
//! size-tiered buckets; the values themselves live in an append-only value log
//! that a garbage collector compacts from its tail.  This crate holds the pure
//! logic of that engine (file formats, placement rules, cursors) together with
//! machine-checked contracts; reading and writing files is left to the caller.
pub mod block;
pub mod bucket_coordinator;
pub mod clock;
pub mod codec;
pub mod entry;
pub mod err;
pub mod filter;
pub mod flusher;
pub mod gc;
pub mod key_range;
pub mod keys;
pub mod memtable;
pub mod paths;
pub mod skip_index;
pub mod sparse_index;
pub mod sst;
pub mod table_format;
pub mod table_laws;
pub mod utils;
pub mod v_log;
