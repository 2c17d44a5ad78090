//! Building blocks of a key-value store that keeps keys and values inside
//! the network buffers that carried them: shared packet buffers, zero-copy
//! multi-segment byte views over them, immutable entries, and a concurrent
//! hash table whose buckets are replaced copy-on-write.
pub mod buffer;
pub mod view;
pub mod entry;
pub mod bucket;
pub mod table;
pub mod transport;
