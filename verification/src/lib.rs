//! Storage engine of a deduplicating, content-addressed backup vault.
//!
//! Byte streams are cut into content-defined chunks, chunks are packed into
//! immutable bundles, and a hash index records where every chunk lives. The
//! engine works on plain values: the embedding program maps them to files.
pub mod error;
pub mod format;
pub mod hash;
pub mod index;
pub mod lock;
pub mod repository;
pub mod writer;
pub mod bundle;
pub mod bundle_db;
pub mod bundle_map;
pub mod cache;
pub mod chunker;
pub mod cli;
pub mod codec;
pub mod config;
pub mod crypto;

pub use crate::bundle::{BundleInfo, BundleMeta, BundleMode, ChunkEntry, StoredBundle};
pub use crate::bundle_map::{BundleId, BundleMap, MapEntry};
pub use crate::cache::DecodedCache;
pub use crate::chunker::Chunker;
pub use crate::cli::ErrorCode;
pub use crate::codec::{Compressor, NoCompressor};
pub use crate::config::{
    ChunkerAlgorithm, ChunkerSpec, Compression, CompressionMethod, Config, Encryption,
    EncryptionMethod,
};
pub use crate::crypto::{belongs_to, KeyPair, KeyStore, PublicKey, SecretKey};
pub use crate::error::RepositoryError;
pub use crate::hash::HashMethod;
pub use crate::index::{Index, Location};
pub use crate::lock::{LockFile, LockFolder, LockHandle};
pub use crate::repository::info::{BundleAnalysis, RepositoryInfo};
pub use crate::repository::vacuum::VacuumReport;
pub use crate::repository::{
    BackupHeader, BackupSource, LocalState, RemoteState, Repository, Session,
};
