use crate::bundle::copy_range;
use crate::config::{Compression, Encryption};
use crate::crypto::{sealedbox_opened, sodium_open, sodium_seal, KeyStore, SecretKey};
use crate::error::RepositoryError;
use vstd::prelude::*;

verus! {

/// A compression strategy, supplied by the embedding program. Nothing is assumed of what an
/// implementation returns: the engine checks what it reads back against the chunk list.
pub trait Compressor {
    /// Compresses `data` with `method`, or returns nothing if that fails.
    fn compress(&self, method: &Compression, data: &Vec<u8>) -> Option<Vec<u8>>;

    /// Undoes `compress`, or returns nothing if `data` is not acceptable.
    fn decompress(&self, method: &Compression, data: &Vec<u8>) -> Option<Vec<u8>>;
}

/// The strategy of a program without compression algorithms: it refuses every call, so only
/// bundles that name no compression can be written and read.
#[derive(Clone, Copy, Debug)]
pub struct NoCompressor;

impl Compressor for NoCompressor {
    /// Refuses: there is no algorithm to compress with.
    fn compress(&self, method: &Compression, data: &Vec<u8>) -> (r: Option<Vec<u8>>)
        ensures
            r is None,
    {
        None
    }

    /// Refuses: there is no algorithm to decompress with.
    fn decompress(&self, method: &Compression, data: &Vec<u8>) -> (r: Option<Vec<u8>>)
        ensures
            r is None,
    {
        None
    }
}

/// What removing the seal from `blob` gives: the blob itself where the bundle names no
/// encryption; else `KeyMissing` without the recipient's secret key, `Decrypt` where the
/// sealed box is rejected, and the message otherwise.
pub open spec fn unsealed(
    keys: Map<Seq<u8>, SecretKey>,
    blob: Seq<u8>,
    encryption: Option<Encryption>,
) -> Result<Seq<u8>, RepositoryError> {
    match encryption {
        None => Ok(blob),
        Some(e) => if !keys.dom().contains(e.key.bytes@) {
            Err(RepositoryError::KeyMissing(e.key))
        } else {
            match sealedbox_opened(blob, e.key.bytes@, keys[e.key.bytes@].bytes@) {
                None => Err(RepositoryError::Decrypt),
                Some(m) => Ok(m),
            }
        },
    }
}

/// Whether `blob` opens to `raw`: it is `raw` where the bundle names no encryption, and
/// else it is sealed for the recipient and opens to `raw` with a secret key of theirs.
pub open spec fn opens_to(blob: Seq<u8>, encryption: Option<Encryption>, raw: Seq<u8>) -> bool {
    match encryption {
        None => blob == raw,
        Some(e) => crate::crypto::sealed_for(blob, raw, e.key.bytes@),
    }
}

/// Whether `keys` can open what is sealed under `encryption`: it names none, or `keys` holds
/// for its recipient a secret key that the recipient's public key belongs to.
pub open spec fn key_ready(keys: Map<Seq<u8>, SecretKey>, encryption: Option<Encryption>) -> bool {
    match encryption {
        None => true,
        Some(e) => keys.dom().contains(e.key.bytes@) && crate::crypto::public_key_of(
            keys[e.key.bytes@].bytes@,
        ) == e.key.bytes@,
    }
}

/// Sealing and unsealing: a blob that opens to `raw` is unsealed to `raw` by a key store
/// that can open it.
pub proof fn lemma_unsealed(
    keys: Map<Seq<u8>, SecretKey>,
    blob: Seq<u8>,
    encryption: Option<Encryption>,
    raw: Seq<u8>,
)
    requires
        opens_to(blob, encryption, raw),
        key_ready(keys, encryption),
    ensures
        unsealed(keys, blob, encryption) == Ok::<Seq<u8>, RepositoryError>(raw),
{
}

/// Removes the seal from a data blob.
pub fn unseal(keys: &KeyStore, blob: &Vec<u8>, encryption: &Option<Encryption>) -> (r: Result<
    Vec<u8>,
    RepositoryError,
>)
    requires
        keys.wf(),
    ensures
        match r {
            Ok(m) => unsealed(keys@, blob@, *encryption) == Ok::<Seq<u8>, RepositoryError>(m@),
            Err(e) => unsealed(keys@, blob@, *encryption) == Err::<Seq<u8>, RepositoryError>(e),
        },
{
    match encryption {
        None => {
            assert(blob@.subrange(0, blob@.len() as int) =~= blob@);
            Ok(copy_range(blob, 0, blob.len()))
        },
        Some(e) => {
            match keys.get_secret_key(&e.key) {
                None => Err(RepositoryError::KeyMissing(e.key)),
                Some(secret) => {
                    match sodium_open(blob, &e.key, &secret) {
                        None => Err(RepositoryError::Decrypt),
                        Some(m) => Ok(m),
                    }
                },
            }
        },
    }
}

/// Turns the raw bytes of a bundle into its data blob: compressed as one stream where the
/// bundle names a compression, then sealed for the recipient where it names an encryption.
/// Compression is the only step that can fail.
pub fn encode_blob<C: Compressor>(
    codec: &C,
    raw: &Vec<u8>,
    compression: &Option<Compression>,
    encryption: &Option<Encryption>,
) -> (r: Result<Vec<u8>, RepositoryError>)
    ensures
        compression is None ==> r is Ok,
        r matches Err(e) ==> e == RepositoryError::Compress,
        r matches Ok(blob) ==> {
            &&& compression is None ==> opens_to(blob@, *encryption, raw@)
            &&& compression is None && encryption is Some ==> blob@.len() == raw@.len()
                + crate::crypto::SEAL_BYTES
        },
{
    let packed = match compression {
        None => {
            assert(raw@.subrange(0, raw@.len() as int) =~= raw@);
            copy_range(raw, 0, raw.len())
        },
        Some(c) => match codec.compress(c, raw) {
            Some(p) => p,
            None => {
                return Err(RepositoryError::Compress);
            },
        },
    };
    match encryption {
        None => Ok(packed),
        Some(e) => Ok(sodium_seal(&packed, &e.key)),
    }
}

/// Turns a data blob back into raw bytes: the seal is removed, then the compression undone.
/// Where the bundle names no compression the outcome is that of `unsealed`.
pub fn decode_blob<C: Compressor>(
    codec: &C,
    keys: &KeyStore,
    blob: &Vec<u8>,
    compression: &Option<Compression>,
    encryption: &Option<Encryption>,
) -> (r: Result<Vec<u8>, RepositoryError>)
    requires
        keys.wf(),
    ensures
        unsealed(keys@, blob@, *encryption) matches Err(e) ==> r == Err::<
            Vec<u8>,
            RepositoryError,
        >(e),
        unsealed(keys@, blob@, *encryption) matches Ok(m) ==> {
            &&& compression is None ==> r is Ok && r->Ok_0@ == m
            &&& r matches Err(e) ==> e == RepositoryError::Compress
        },
{
    let packed = match unseal(keys, blob, encryption) {
        Ok(p) => p,
        Err(e) => {
            return Err(e);
        },
    };
    match compression {
        None => Ok(packed),
        Some(c) => match codec.decompress(c, &packed) {
            Some(raw) => Ok(raw),
            None => Err(RepositoryError::Compress),
        },
    }
}

} // verus!
