use vstd::prelude::*;

verus! {

/// Errors of the storage engines.
///
/// Failures of outside services (file system, codecs) are carried as
/// plain variants: the code that talks to those services maps its own
/// error values onto them.
#[derive(Debug, PartialEq, Eq, Structural)]
#[non_exhaustive]
pub enum KvsError {
    /// Underlying file system failure.
    Io,
    /// A reply channel was closed before a value arrived.
    Recv,
    /// Encoding a command record failed.
    SerdeMPEncode,
    /// Decoding a command record failed.
    SerdeMPDecode,
    /// Encoding or decoding a fixed-width block failed.
    SerdeBinCode,
    /// `remove` was asked for a key that is not stored.
    KeyNotFound,
    DataEmpty,
    /// A table was to be promoted above the deepest level.
    LevelOver,
    NotMatchCmd,
    /// The checksum in a table footer does not match its data block.
    CrcMisMatch,
    /// The block cache was configured with capacity zero.
    CacheSizeOverFlow,
    /// The delegated embedded store failed.
    Sled,
    /// The handler of the current segment is missing.
    FileNotFound,
    /// An index references an offset outside the replayed write-ahead log.
    WalLoadError,
    /// A level references a table generation that is not loaded.
    SSTableLostError,
    /// An index pointed at a record that is not a `Set`.
    UnexpectedCommandType,
}

/// Errors of the network layer that sits on top of the engines.
#[derive(Debug, PartialEq, Eq, Structural)]
#[non_exhaustive]
pub enum ConnectionError {
    Io,
    Serde,
    Disconnected,
    WriteFailed,
    WrongInstruction,
    SerdeMPEncode,
    SerdeMPDecode,
    RemoteFlushError,
    KvStoreError(KvsError),
}

impl From<KvsError> for ConnectionError {
    fn from(err: KvsError) -> (r: ConnectionError)
        ensures
            r == ConnectionError::KvStoreError(err),
    {
        ConnectionError::KvStoreError(err)
    }
}

impl vstd::std_specs::convert::FromSpecImpl<KvsError> for ConnectionError {
    open spec fn obeys_from_spec() -> bool {
        true
    }

    open spec fn from_spec(v: KvsError) -> ConnectionError {
        ConnectionError::KvStoreError(v)
    }
}

} // verus!
