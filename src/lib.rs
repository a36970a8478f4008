//! An embedded key-value store's storage core: the framed command-record
//! format, the index and compaction bookkeeping of a hash-indexed log
//! store, and the tables, levels and memtables of a leveled LSM store.

pub mod block_cache;
pub mod command;
pub mod error;
pub mod hash_kv;
pub mod io_handler;
pub mod lsm;
pub mod mem_table;

pub use command::{CommandData, CommandPackage, CommandPos};
pub use error::{ConnectionError, KvsError};
