use vstd::prelude::*;

verus! {

/// Failure classes of the storage engine.
#[derive(Clone, Copy, Debug, PartialEq, Eq)]
pub enum RepositoryError {
    /// The embedding could not read or write a file.
    Io,
    /// A bundle's bytes do not follow the bundle format.
    BundleFormat,
    /// No bundle with this content-id is known, or its blob is gone from the remote.
    BundleMissing(crate::bundle_map::BundleId),
    /// A small bundle id is not in the bundle map.
    BundleIdMissing(u32),
    /// A chunk hash is not indexed, or its bytes cannot be produced.
    ChunkMissing(crate::hash::Hash),
    /// The index disagrees with the bundles it refers to.
    IndexCorrupt,
    /// The bundle map is malformed or would stop being injective.
    BundleMapCorrupt,
    /// A configuration value is not acceptable.
    ConfigInvalid,
    /// The secret key for this public key is not in the key store.
    KeyMissing(crate::crypto::PublicKey),
    /// A sealed blob could not be opened with the stored key.
    Decrypt,
    /// The compressor rejected a blob.
    Compress,
    /// An incompatible lock is held.
    LockBusy,
    /// A lock is held by a holder that is gone.
    LockStale,
    /// The repository was not closed cleanly.
    DirtyRepository,
    /// A persisted structure carries an unknown format version.
    WrongVersion,
    /// The index cannot grow any further.
    IndexFull,
    /// No unused bundle id is left above the watermarks.
    IdsExhausted,
}

} // verus!
