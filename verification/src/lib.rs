//! A partitioned append-only log: record framing, offset bookkeeping and
//! sequential reads, kept free of I/O so that every rule is proved.
//!
//! A partition is a file of records, each an 8-byte little-endian length
//! followed by that many bytes. The registry knows for every open partition
//! the file that backs it and the offset at which the next record begins.
//! Whoever uses the library opens, writes and reads the files, and hands the
//! library plain values: the length of a file, the bytes of a file, the bytes
//! of an encoded message.

pub mod frame;
pub mod log;
pub mod message;
pub mod partition;
pub mod storage;
pub mod system;

pub use frame::decode_len;
pub use frame::decode_record;
pub use frame::encode_len;
pub use frame::encode_record;
pub use frame::read_records;
pub use message::Message;
pub use partition::partition_path;
pub use partition::PartitionFile;
pub use storage::FileLogStorage;
pub use storage::LogStorage;
pub use storage::StorageError;
