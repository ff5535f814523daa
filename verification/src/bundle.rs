use crate::bundle_map::BundleId;
use crate::config::{Compression, CompressionMethod, Encryption, EncryptionMethod};
use crate::crypto::PublicKey;
use crate::hash;
use crate::hash::HashMethod;
use vstd::bytes::{
    spec_u32_to_le_bytes, spec_u64_to_le_bytes, u32_to_le_bytes, u64_to_le_bytes,
};
use vstd::prelude::*;

verus! {

/// The partition a bundle belongs to: file contents and metadata never share a bundle.
#[derive(Clone, Copy, Debug, PartialEq, Eq, Structural)]
pub enum BundleMode {
    Data,
    Meta,
}

/// One row of a bundle's chunk list: the fingerprint of a chunk and its length in bytes.
#[derive(Clone, Copy, Debug, PartialEq, Eq, Structural)]
pub struct ChunkEntry {
    pub hash: hash::Hash,
    pub len: u32,
}

/// What a bundle's header says.
#[derive(Clone, Copy, Debug, PartialEq, Eq)]
pub struct BundleInfo {
    pub id: BundleId,
    pub mode: BundleMode,
    pub hash_method: HashMethod,
    pub compression: Option<Compression>,
    pub encryption: Option<Encryption>,
    pub chunk_count: usize,
    /// Length of the data blob as stored.
    pub encoded_size: usize,
    /// Length of the chunks' bytes before compression and sealing.
    pub raw_size: usize,
    /// Seconds since the epoch at which the bundle was closed.
    pub timestamp: u64,
}

/// A bundle's header with its chunk list: what the local cache keeps of a bundle.
#[derive(Debug)]
pub struct BundleMeta {
    pub info: BundleInfo,
    pub chunks: Vec<ChunkEntry>,
}

/// A bundle as it lies on the remote: header, chunk list and the encoded data blob.
#[derive(Debug)]
pub struct StoredBundle {
    pub info: BundleInfo,
    pub chunks: Vec<ChunkEntry>,
    pub data: Vec<u8>,
}

/// Largest number of chunks in one bundle: a chunk's place has to fit the index.
pub const MAX_CHUNKS: usize = 0xffff_ffff;

/// Whether a header agrees with the chunk list it stands before.
pub open spec fn meta_wf(info: BundleInfo, chunks: Seq<ChunkEntry>) -> bool {
    &&& info.chunk_count == chunks.len()
    &&& chunks.len() <= MAX_CHUNKS
    &&& info.raw_size == total_len(chunks)
}

impl BundleMeta {
    /// Whether the header agrees with the chunk list.
    pub open spec fn wf(&self) -> bool {
        meta_wf(self.info, self.chunks@)
    }

    /// Whether the header agrees with the chunk list.
    pub fn check(&self) -> (r: bool)
        ensures
            r == self.wf(),
    {
        if self.info.chunk_count != self.chunks.len() || self.chunks.len() > MAX_CHUNKS {
            return false;
        }
        match raw_length(&self.chunks) {
            Some(n) => n == self.info.raw_size,
            None => false,
        }
    }

    /// A copy of this header and chunk list.
    pub fn copy(&self) -> (m: BundleMeta)
        ensures
            m.info == self.info,
            m.chunks@ == self.chunks@,
    {
        BundleMeta { info: self.info, chunks: copy_chunks(&self.chunks) }
    }
}

impl StoredBundle {
    /// Whether the header agrees with the chunk list and the data blob.
    pub open spec fn wf(&self) -> bool {
        &&& meta_wf(self.info, self.chunks@)
        &&& self.info.encoded_size == self.data@.len()
    }

    /// Whether the header agrees with the chunk list and the data blob.
    pub fn check(&self) -> (r: bool)
        ensures
            r == self.wf(),
    {
        if self.info.chunk_count != self.chunks.len() || self.chunks.len() > MAX_CHUNKS
            || self.info.encoded_size != self.data.len() {
            return false;
        }
        match raw_length(&self.chunks) {
            Some(n) => n == self.info.raw_size,
            None => false,
        }
    }

    /// The header and chunk list of this bundle.
    pub fn meta(&self) -> (m: BundleMeta)
        ensures
            m.info == self.info,
            m.chunks@ == self.chunks@,
    {
        BundleMeta { info: self.info, chunks: copy_chunks(&self.chunks) }
    }

    /// A copy of this bundle.
    pub fn copy(&self) -> (b: StoredBundle)
        ensures
            b.info == self.info,
            b.chunks@ == self.chunks@,
            b.data@ == self.data@,
    {
        assert(self.data@.subrange(0, self.data@.len() as int) =~= self.data@);
        StoredBundle {
            info: self.info,
            chunks: copy_chunks(&self.chunks),
            data: copy_range(&self.data, 0, self.data.len()),
        }
    }
}

/// The four magic bytes at the start of a bundle file.
pub open spec fn magic() -> Seq<u8> {
    seq![0x5au8, 0x56u8, 0x4cu8, 0x54u8]
}

/// The format version written behind the magic bytes.
pub const FORMAT_VERSION: u8 = 1;

/// Length of the header behind the length prefix.
pub const HEADER_BYTES: usize = 67;

/// Length of one row of the encoded chunk list.
pub const ENTRY_BYTES: usize = 20;

/// The sum of the chunk lengths of `chunks`.
pub open spec fn total_len(chunks: Seq<ChunkEntry>) -> nat
    decreases chunks.len(),
{
    if chunks.len() == 0 {
        0
    } else {
        total_len(chunks.drop_last()) + chunks.last().len as nat
    }
}

/// Where chunk `idx` starts in the raw bytes of a bundle with the chunk list `chunks`.
pub open spec fn chunk_start(chunks: Seq<ChunkEntry>, idx: int) -> nat
    recommends
        0 <= idx <= chunks.len(),
{
    total_len(chunks.subrange(0, idx))
}

/// The bytes of chunk `idx` in the raw bytes `raw`.
pub open spec fn chunk_bytes(raw: Seq<u8>, chunks: Seq<ChunkEntry>, idx: int) -> Seq<u8>
    recommends
        0 <= idx < chunks.len(),
        chunk_start(chunks, idx + 1) <= raw.len(),
{
    raw.subrange(chunk_start(chunks, idx) as int, chunk_start(chunks, idx) + chunks[idx].len)
}

/// The start of each chunk lies before the start of the next, by the chunk's length.
pub proof fn lemma_chunk_start_step(chunks: Seq<ChunkEntry>, idx: int)
    requires
        0 <= idx < chunks.len(),
    ensures
        chunk_start(chunks, idx + 1) == chunk_start(chunks, idx) + chunks[idx].len,
        chunk_start(chunks, 0) == 0,
        chunk_start(chunks, chunks.len() as int) == total_len(chunks),
{
    assert(chunks.subrange(0, idx + 1).drop_last() =~= chunks.subrange(0, idx));
    assert(chunks.subrange(0, chunks.len() as int) =~= chunks);
}

/// Chunk starts grow with the index.
pub proof fn lemma_chunk_start_monotonic(chunks: Seq<ChunkEntry>, i: int, j: int)
    requires
        0 <= i <= j <= chunks.len(),
    ensures
        chunk_start(chunks, i) <= chunk_start(chunks, j),
    decreases j - i,
{
    if i < j {
        lemma_chunk_start_monotonic(chunks, i, j - 1);
        lemma_chunk_start_step(chunks, j - 1);
    }
}

/// The sum of the chunk lengths of `chunks`, where it fits.
pub fn raw_length(chunks: &Vec<ChunkEntry>) -> (r: Option<usize>)
    ensures
        match r {
            Some(n) => n == total_len(chunks@),
            None => total_len(chunks@) > usize::MAX,
        },
{
    let mut sum: usize = 0;
    let mut i: usize = 0;
    while i < chunks.len()
        invariant
            i <= chunks@.len(),
            sum == chunk_start(chunks@, i as int),
        decreases chunks@.len() - i,
    {
        proof {
            lemma_chunk_start_step(chunks@, i as int);
            lemma_chunk_start_monotonic(chunks@, i + 1, chunks@.len() as int);
        }
        match sum.checked_add(chunks[i].len as usize) {
            Some(s) => {
                sum = s;
            },
            None => {
                return None;
            },
        }
        i += 1;
    }
    proof {
        if chunks@.len() > 0 {
            lemma_chunk_start_step(chunks@, 0);
        } else {
            assert(chunks@.subrange(0, 0) =~= chunks@);
        }
    }
    Some(sum)
}

/// A copy of `bytes[from..to]`.
pub fn copy_range(bytes: &Vec<u8>, from: usize, to: usize) -> (out: Vec<u8>)
    requires
        from <= to <= bytes@.len(),
    ensures
        out@ == bytes@.subrange(from as int, to as int),
{
    let mut out: Vec<u8> = Vec::new();
    let mut i = from;
    while i < to
        invariant
            from <= i <= to <= bytes@.len(),
            out@ == bytes@.subrange(from as int, i as int),
        decreases to - i,
    {
        out.push(bytes[i]);
        assert(out@ =~= bytes@.subrange(from as int, i + 1));
        i += 1;
    }
    out
}

/// A copy of a chunk list.
pub fn copy_chunks(chunks: &Vec<ChunkEntry>) -> (out: Vec<ChunkEntry>)
    ensures
        out@ == chunks@,
{
    let mut out: Vec<ChunkEntry> = Vec::new();
    let mut i: usize = 0;
    while i < chunks.len()
        invariant
            i <= chunks@.len(),
            out@ == chunks@.subrange(0, i as int),
        decreases chunks@.len() - i,
    {
        out.push(chunks[i]);
        assert(out@ =~= chunks@.subrange(0, i + 1));
        i += 1;
    }
    assert(chunks@.subrange(0, chunks@.len() as int) =~= chunks@);
    out
}

/// Whether chunk `idx` of `chunks` lies within `raw`.
pub open spec fn chunk_in_range(raw: Seq<u8>, chunks: Seq<ChunkEntry>, idx: int) -> bool {
    0 <= idx < chunks.len() && chunk_start(chunks, idx + 1) <= raw.len()
}

/// Cuts chunk `idx` out of the raw bytes of a bundle, if it lies within them.
pub fn extract_chunk(raw: &Vec<u8>, chunks: &Vec<ChunkEntry>, idx: usize) -> (r: Option<Vec<u8>>)
    ensures
        r is Some <==> chunk_in_range(raw@, chunks@, idx as int),
        r matches Some(data) ==> data@ == chunk_bytes(raw@, chunks@, idx as int) && data@.len()
            == chunks@[idx as int].len,
{
    if idx >= chunks.len() {
        return None;
    }
    let mut start: usize = 0;
    let mut i: usize = 0;
    while i < idx
        invariant
            i <= idx < chunks@.len(),
            start == chunk_start(chunks@, i as int),
            start <= raw@.len(),
        decreases idx - i,
    {
        proof {
            lemma_chunk_start_step(chunks@, i as int);
            lemma_chunk_start_monotonic(chunks@, i + 1, idx + 1);
        }
        let len = chunks[i].len as usize;
        if len > raw.len() - start {
            return None;
        }
        start = start + len;
        i += 1;
    }
    proof {
        lemma_chunk_start_step(chunks@, idx as int);
        if idx == 0 {
            assert(chunks@.subrange(0, 0).len() == 0);
        }
    }
    let len = chunks[idx].len as usize;
    if len > raw.len() - start {
        return None;
    }
    Some(copy_range(raw, start, start + len))
}

/// The bytes of a fingerprint: `high`, then `low`, each little-endian.
pub open spec fn hash_bytes(h: hash::Hash) -> Seq<u8> {
    spec_u64_to_le_bytes(h.high) + spec_u64_to_le_bytes(h.low)
}

/// The bytes of one row of the chunk list: the fingerprint, then the length, little-endian.
pub open spec fn entry_bytes(e: ChunkEntry) -> Seq<u8> {
    hash_bytes(e.hash) + spec_u32_to_le_bytes(e.len)
}

/// The encoded chunk list: its rows one after the other.
pub open spec fn chunk_list_bytes(chunks: Seq<ChunkEntry>) -> Seq<u8>
    decreases chunks.len(),
{
    if chunks.len() == 0 {
        Seq::empty()
    } else {
        chunk_list_bytes(chunks.drop_last()) + entry_bytes(chunks.last())
    }
}

/// The byte that stands for a bundle mode.
pub open spec fn mode_byte(mode: BundleMode) -> u8 {
    match mode {
        BundleMode::Data => 0,
        BundleMode::Meta => 1,
    }
}

/// The byte that stands for a hash method.
pub open spec fn hash_method_byte(method: HashMethod) -> u8 {
    match method {
        HashMethod::Blake2 => 0,
        HashMethod::Murmur3 => 1,
    }
}

/// The byte that stands for a compression algorithm.
pub open spec fn compression_byte(method: CompressionMethod) -> u8 {
    match method {
        CompressionMethod::Deflate => 0,
        CompressionMethod::Brotli => 1,
        CompressionMethod::Lzma => 2,
        CompressionMethod::Lz4 => 3,
    }
}

/// The three bytes of the compression field: a presence flag, the algorithm, the level.
pub open spec fn compression_bytes(c: Option<Compression>) -> Seq<u8> {
    match c {
        None => seq![0u8, 0u8, 0u8],
        Some(c) => seq![1u8, compression_byte(c.method), c.level],
    }
}

/// The 34 bytes of the encryption field: a presence flag, the method, the public key.
pub open spec fn encryption_bytes(e: Option<Encryption>) -> Seq<u8> {
    match e {
        None => seq![0u8, 0u8] + Seq::new(32, |i: int| 0u8),
        Some(e) => seq![1u8, 0u8] + e.key.bytes@,
    }
}

/// The header of a bundle file: mode, hash method, compression, encryption, chunk count,
/// encoded size, raw size and timestamp, 67 bytes in all.
pub open spec fn header_bytes(info: BundleInfo) -> Seq<u8> {
    seq![mode_byte(info.mode), hash_method_byte(info.hash_method)] + compression_bytes(
        info.compression,
    ) + encryption_bytes(info.encryption) + spec_u32_to_le_bytes(info.chunk_count as u32)
        + spec_u64_to_le_bytes(info.encoded_size as u64) + spec_u64_to_le_bytes(
        info.raw_size as u64,
    ) + spec_u64_to_le_bytes(info.timestamp)
}

/// The canonical bytes of a bundle: magic and version, the length-prefixed header, the
/// encoded chunk list, the data blob. The content-id is their fingerprint, so it is not
/// among them.
pub open spec fn file_bytes(info: BundleInfo, chunks: Seq<ChunkEntry>, data: Seq<u8>) -> Seq<u8> {
    magic() + seq![FORMAT_VERSION] + spec_u32_to_le_bytes(HEADER_BYTES as u32) + header_bytes(info)
        + chunk_list_bytes(chunks) + data
}

fn push_all(out: &mut Vec<u8>, bytes: &Vec<u8>)
    ensures
        final(out)@ == old(out)@ + bytes@,
{
    let mut i: usize = 0;
    while i < bytes.len()
        invariant
            i <= bytes@.len(),
            out@ == old(out)@ + bytes@.subrange(0, i as int),
        decreases bytes@.len() - i,
    {
        out.push(bytes[i]);
        assert(out@ =~= old(out)@ + bytes@.subrange(0, i + 1));
        i += 1;
    }
    assert(bytes@.subrange(0, bytes@.len() as int) =~= bytes@);
}

fn encode_header(info: &BundleInfo) -> (out: Vec<u8>)
    requires
        info.chunk_count <= u32::MAX,
    ensures
        out@ == header_bytes(*info),
{
    let mut out: Vec<u8> = Vec::new();
    out.push(
        match info.mode {
            BundleMode::Data => 0u8,
            BundleMode::Meta => 1u8,
        },
    );
    out.push(
        match info.hash_method {
            HashMethod::Blake2 => 0u8,
            HashMethod::Murmur3 => 1u8,
        },
    );
    match info.compression {
        None => {
            out.push(0u8);
            out.push(0u8);
            out.push(0u8);
        },
        Some(c) => {
            out.push(1u8);
            out.push(
                match c.method {
                    CompressionMethod::Deflate => 0u8,
                    CompressionMethod::Brotli => 1u8,
                    CompressionMethod::Lzma => 2u8,
                    CompressionMethod::Lz4 => 3u8,
                },
            );
            out.push(c.level);
        },
    }
    assert(out@ =~= seq![mode_byte(info.mode), hash_method_byte(info.hash_method)]
        + compression_bytes(info.compression));
    let ghost front = out@;
    match info.encryption {
        None => {
            out.push(0u8);
            out.push(0u8);
            let mut i: usize = 0;
            while i < 32
                invariant
                    i <= 32,
                    out@ == front + seq![0u8, 0u8] + Seq::new(i as nat, |i: int| 0u8),
                decreases 32 - i,
            {
                out.push(0u8);
                assert(out@ =~= front + seq![0u8, 0u8] + Seq::new((i + 1) as nat, |i: int| 0u8));
                i += 1;
            }
            assert(out@ =~= front + encryption_bytes(info.encryption));
        },
        Some(e) => {
            out.push(1u8);
            out.push(0u8);
            let mut i: usize = 0;
            while i < 32
                invariant
                    i <= 32,
                    out@ == front + seq![1u8, 0u8] + e.key.bytes@.subrange(0, i as int),
                decreases 32 - i,
            {
                out.push(e.key.bytes[i]);
                assert(out@ =~= front + seq![1u8, 0u8] + e.key.bytes@.subrange(0, i + 1));
                i += 1;
            }
            assert(e.key.bytes@.subrange(0, 32) =~= e.key.bytes@);
            assert(out@ =~= front + encryption_bytes(info.encryption));
        },
    }
    push_all(&mut out, &u32_to_le_bytes(info.chunk_count as u32));
    push_all(&mut out, &u64_to_le_bytes(info.encoded_size as u64));
    push_all(&mut out, &u64_to_le_bytes(info.raw_size as u64));
    push_all(&mut out, &u64_to_le_bytes(info.timestamp));
    out
}

/// Appends the encoded chunk list to `out`.
pub fn encode_chunk_list(out: &mut Vec<u8>, chunks: &Vec<ChunkEntry>)
    ensures
        final(out)@ == old(out)@ + chunk_list_bytes(chunks@),
{
    let mut i: usize = 0;
    while i < chunks.len()
        invariant
            i <= chunks@.len(),
            out@ == old(out)@ + chunk_list_bytes(chunks@.subrange(0, i as int)),
        decreases chunks@.len() - i,
    {
        let e = chunks[i];
        let ghost before = out@;
        push_all(out, &u64_to_le_bytes(e.hash.high));
        push_all(out, &u64_to_le_bytes(e.hash.low));
        push_all(out, &u32_to_le_bytes(e.len));
        proof {
            assert(chunks@.subrange(0, i + 1).drop_last() =~= chunks@.subrange(0, i as int));
            assert(out@ =~= before + entry_bytes(e));
            assert(out@ =~= old(out)@ + chunk_list_bytes(chunks@.subrange(0, i + 1)));
        }
        i += 1;
    }
    assert(chunks@.subrange(0, chunks@.len() as int) =~= chunks@);
}

/// Writes out the canonical bytes of a bundle.
pub fn encode_file(info: &BundleInfo, chunks: &Vec<ChunkEntry>, data: &Vec<u8>) -> (out: Vec<u8>)
    requires
        info.chunk_count <= u32::MAX,
    ensures
        out@ == file_bytes(*info, chunks@, data@),
{
    let mut out: Vec<u8> = Vec::new();
    out.push(0x5au8);
    out.push(0x56u8);
    out.push(0x4cu8);
    out.push(0x54u8);
    out.push(FORMAT_VERSION);
    assert(out@ =~= magic() + seq![FORMAT_VERSION]);
    push_all(&mut out, &u32_to_le_bytes(HEADER_BYTES as u32));
    push_all(&mut out, &encode_header(info));
    encode_chunk_list(&mut out, chunks);
    push_all(&mut out, data);
    out
}

/// The content-id of a bundle: the fingerprint, under the bundle's own hash method, of its
/// canonical bytes.
pub open spec fn is_content_id(
    id: BundleId,
    info: BundleInfo,
    chunks: Seq<ChunkEntry>,
    data: Seq<u8>,
) -> bool {
    info.hash_method.hashes_to(file_bytes(info, chunks, data), id.hash)
}

/// Computes the content-id of a bundle. The id already in `info` plays no part.
pub fn content_id(info: &BundleInfo, chunks: &Vec<ChunkEntry>, data: &Vec<u8>) -> (id: BundleId)
    requires
        info.chunk_count <= u32::MAX,
    ensures
        is_content_id(id, *info, chunks@, data@),
{
    let bytes = encode_file(info, chunks, data);
    BundleId { hash: info.hash_method.hash(bytes.as_slice()) }
}

} // verus!
