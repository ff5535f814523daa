use crate::bundle::{
    chunk_list_bytes, compression_byte, compression_bytes, content_id, encryption_bytes,
    entry_bytes, file_bytes, hash_method_byte, header_bytes, is_content_id, magic, meta_wf,
    mode_byte, raw_length, total_len, BundleInfo, BundleMode, ChunkEntry, StoredBundle,
    ENTRY_BYTES, FORMAT_VERSION, HEADER_BYTES, MAX_CHUNKS,
};
use crate::bundle_map::BundleId;
use crate::config::{Compression, CompressionMethod, Encryption, EncryptionMethod};
use crate::crypto::PublicKey;
use crate::error::RepositoryError;
use crate::hash;
use crate::hash::HashMethod;
use vstd::bytes::{
    lemma_auto_spec_u32_to_from_le_bytes, lemma_auto_spec_u64_to_from_le_bytes,
    spec_u32_from_le_bytes, spec_u32_to_le_bytes, spec_u64_from_le_bytes, spec_u64_to_le_bytes,
    u32_from_le_bytes, u64_from_le_bytes,
};
use vstd::prelude::*;

verus! {

/// Length of what stands before the header: magic bytes, version, header length.
pub const PREFIX_BYTES: usize = 9;

/// Where the chunk list starts in a bundle file.
pub const LIST_START: usize = 76;

/// Reads a little-endian `u32` at `at`.
pub fn read_u32(bytes: &Vec<u8>, at: usize) -> (v: u32)
    requires
        at + 4 <= bytes@.len(),
    ensures
        v == spec_u32_from_le_bytes(bytes@.subrange(at as int, at + 4)),
{
    let _n = bytes.len();
    u32_from_le_bytes(vstd::slice::slice_subrange(bytes.as_slice(), at, at + 4))
}

/// Reads a little-endian `u64` at `at`.
pub fn read_u64(bytes: &Vec<u8>, at: usize) -> (v: u64)
    requires
        at + 8 <= bytes@.len(),
    ensures
        v == spec_u64_from_le_bytes(bytes@.subrange(at as int, at + 8)),
{
    let _n = bytes.len();
    u64_from_le_bytes(vstd::slice::slice_subrange(bytes.as_slice(), at, at + 8))
}

/// The row of the chunk list that 20 bytes spell out.
pub open spec fn parse_entry(e: Seq<u8>) -> ChunkEntry {
    ChunkEntry {
        hash: hash::Hash {
            high: spec_u64_from_le_bytes(e.subrange(0, 8)),
            low: spec_u64_from_le_bytes(e.subrange(8, 16)),
        },
        len: spec_u32_from_le_bytes(e.subrange(16, 20)),
    }
}

/// The chunk list of `n` rows that `b` spells out.
pub open spec fn parse_chunks(b: Seq<u8>, n: nat) -> Seq<ChunkEntry> {
    Seq::new(n, |k: int| parse_entry(b.subrange(20 * k, 20 * k + 20)))
}

/// A row is 20 bytes long, and parsing it gives the row back.
pub proof fn lemma_entry_round_trip(e: ChunkEntry)
    ensures
        entry_bytes(e).len() == 20,
        parse_entry(entry_bytes(e)) == e,
{
    lemma_auto_spec_u32_to_from_le_bytes();
    lemma_auto_spec_u64_to_from_le_bytes();
    let b = entry_bytes(e);
    assert(b.subrange(0, 8) =~= spec_u64_to_le_bytes(e.hash.high));
    assert(b.subrange(8, 16) =~= spec_u64_to_le_bytes(e.hash.low));
    assert(b.subrange(16, 20) =~= spec_u32_to_le_bytes(e.len));
}

/// Twenty bytes are the bytes of the row they spell out.
pub proof fn lemma_entry_bytes(b: Seq<u8>)
    requires
        b.len() == 20,
    ensures
        entry_bytes(parse_entry(b)) == b,
{
    lemma_auto_spec_u32_to_from_le_bytes();
    lemma_auto_spec_u64_to_from_le_bytes();
    let e = parse_entry(b);
    assert(spec_u64_to_le_bytes(e.hash.high) == b.subrange(0, 8));
    assert(spec_u64_to_le_bytes(e.hash.low) == b.subrange(8, 16));
    assert(spec_u32_to_le_bytes(e.len) == b.subrange(16, 20));
    assert(entry_bytes(e) =~= b);
}

/// An encoded chunk list has 20 bytes for each row, and parsing it gives the list back.
pub proof fn lemma_chunks_round_trip(chunks: Seq<ChunkEntry>)
    ensures
        chunk_list_bytes(chunks).len() == 20 * chunks.len(),
        parse_chunks(chunk_list_bytes(chunks), chunks.len()) == chunks,
    decreases chunks.len(),
{
    if chunks.len() == 0 {
        assert(parse_chunks(chunk_list_bytes(chunks), 0) =~= chunks);
    } else {
        let front = chunks.drop_last();
        lemma_chunks_round_trip(front);
        lemma_entry_round_trip(chunks.last());
        let b = chunk_list_bytes(chunks);
        let fb = chunk_list_bytes(front);
        assert forall|k: int| 0 <= k < chunks.len() implies parse_chunks(b, chunks.len())[k]
            == chunks[k] by {
            if k < front.len() {
                assert(b.subrange(20 * k, 20 * k + 20) =~= fb.subrange(20 * k, 20 * k + 20));
                assert(parse_chunks(fb, front.len())[k] == front[k]);
            } else {
                assert(b.subrange(20 * k, 20 * k + 20) =~= entry_bytes(chunks.last()));
            }
        }
        assert(parse_chunks(b, chunks.len()) =~= chunks);
    }
}

/// Bytes of `n` rows are the encoding of the chunk list they spell out.
pub proof fn lemma_chunks_bytes(b: Seq<u8>, n: nat)
    requires
        b.len() == 20 * n,
    ensures
        chunk_list_bytes(parse_chunks(b, n)) == b,
    decreases n,
{
    let chunks = parse_chunks(b, n);
    if n == 0 {
        assert(chunk_list_bytes(chunks) =~= b);
    } else {
        let fb = b.subrange(0, 20 * (n - 1));
        lemma_chunks_bytes(fb, (n - 1) as nat);
        let front = parse_chunks(fb, (n - 1) as nat);
        assert forall|k: int| 0 <= k < n - 1 implies chunks.drop_last()[k] == front[k] by {
            assert(b.subrange(20 * k, 20 * k + 20) =~= fb.subrange(20 * k, 20 * k + 20));
        }
        assert(chunks.drop_last() =~= front);
        lemma_entry_bytes(b.subrange(20 * (n - 1), 20 * (n - 1) + 20));
        assert(chunk_list_bytes(chunks) =~= b);
    }
}

/// Whether 67 bytes are a header in canonical form: every tag is known, and an absent
/// compression or encryption is followed by zeros.
pub open spec fn header_valid(b: Seq<u8>) -> bool {
    &&& b.len() == HEADER_BYTES
    &&& b[0] <= 1
    &&& b[1] <= 1
    &&& b[2] <= 1
    &&& b[3] <= 3
    &&& b[2] == 0 ==> b[3] == 0 && b[4] == 0
    &&& b[5] <= 1
    &&& b[6] == 0
    &&& b[5] == 0 ==> forall|i: int| 7 <= i < 39 ==> b[i] == 0
    &&& spec_u64_from_le_bytes(b.subrange(43, 51)) <= usize::MAX
    &&& spec_u64_from_le_bytes(b.subrange(51, 59)) <= usize::MAX
}

/// Whether `info` is the header that the 67 bytes `b` spell out. The content-id is not in
/// the header.
pub open spec fn header_is(b: Seq<u8>, info: BundleInfo) -> bool {
    &&& info.mode == (if b[0] == 0 {
        BundleMode::Data
    } else {
        BundleMode::Meta
    })
    &&& info.hash_method == (if b[1] == 0 {
        HashMethod::Blake2
    } else {
        HashMethod::Murmur3
    })
    &&& info.compression == (if b[2] == 0 {
        None
    } else {
        Some(
            Compression {
                method: if b[3] == 0 {
                    CompressionMethod::Deflate
                } else if b[3] == 1 {
                    CompressionMethod::Brotli
                } else if b[3] == 2 {
                    CompressionMethod::Lzma
                } else {
                    CompressionMethod::Lz4
                },
                level: b[4],
            },
        )
    })
    &&& if b[5] == 0 {
        info.encryption is None
    } else {
        info.encryption matches Some(e) && e.method == EncryptionMethod::Sodium && e.key.bytes@
            == b.subrange(7, 39)
    }
    &&& info.chunk_count == spec_u32_from_le_bytes(b.subrange(39, 43))
    &&& info.encoded_size == spec_u64_from_le_bytes(b.subrange(43, 51))
    &&& info.raw_size == spec_u64_from_le_bytes(b.subrange(51, 59))
    &&& info.timestamp == spec_u64_from_le_bytes(b.subrange(59, 67))
}

/// A header is 67 bytes in canonical form that spell it out.
pub proof fn lemma_header_round_trip(info: BundleInfo)
    requires
        info.chunk_count <= MAX_CHUNKS,
    ensures
        header_valid(header_bytes(info)),
        header_is(header_bytes(info), info),
{
    lemma_auto_spec_u32_to_from_le_bytes();
    lemma_auto_spec_u64_to_from_le_bytes();
    let b = header_bytes(info);
    let front = seq![mode_byte(info.mode), hash_method_byte(info.hash_method)] + compression_bytes(
        info.compression,
    ) + encryption_bytes(info.encryption);
    assert(front.len() == 39);
    assert(b.subrange(0, 39) =~= front);
    assert(b.subrange(39, 43) =~= spec_u32_to_le_bytes(info.chunk_count as u32));
    assert(b.subrange(43, 51) =~= spec_u64_to_le_bytes(info.encoded_size as u64));
    assert(b.subrange(51, 59) =~= spec_u64_to_le_bytes(info.raw_size as u64));
    assert(b.subrange(59, 67) =~= spec_u64_to_le_bytes(info.timestamp));
    assert forall|i: int| 0 <= i < 39 implies b[i] == front[i] by {
        assert(b.subrange(0, 39)[i] == b[i]);
    }
    match info.encryption {
        None => {},
        Some(e) => {
            assert(b.subrange(7, 39) =~= e.key.bytes@);
        },
    }
}

/// Bytes that spell out a header are the bytes of that header.
pub proof fn lemma_header_bytes(b: Seq<u8>, info: BundleInfo)
    requires
        header_valid(b),
        header_is(b, info),
    ensures
        header_bytes(info) == b,
        info.chunk_count <= MAX_CHUNKS,
{
    lemma_auto_spec_u32_to_from_le_bytes();
    lemma_auto_spec_u64_to_from_le_bytes();
    let h = header_bytes(info);
    let front = seq![mode_byte(info.mode), hash_method_byte(info.hash_method)] + compression_bytes(
        info.compression,
    ) + encryption_bytes(info.encryption);
    assert(front.len() == 39);
    assert(front =~= b.subrange(0, 39)) by {
        assert forall|i: int| 0 <= i < 39 implies front[i] == b.subrange(0, 39)[i] by {
            if i >= 7 {
                match info.encryption {
                    None => {},
                    Some(e) => {
                        assert(e.key.bytes@[i - 7] == b.subrange(7, 39)[i - 7]);
                    },
                }
            }
        }
    }
    assert(spec_u32_to_le_bytes(info.chunk_count as u32) == b.subrange(39, 43));
    assert(spec_u64_to_le_bytes(info.encoded_size as u64) == b.subrange(43, 51));
    assert(spec_u64_to_le_bytes(info.raw_size as u64) == b.subrange(51, 59));
    assert(spec_u64_to_le_bytes(info.timestamp) == b.subrange(59, 67));
    assert(h =~= b.subrange(0, 39) + b.subrange(39, 43) + b.subrange(43, 51) + b.subrange(51, 59)
        + b.subrange(59, 67));
    assert(h =~= b);
}

/// What kind of failure, if any, stands in the way of reading `bytes` as a bundle file:
/// `BundleFormat` for bytes that are too short or do not begin with the magic bytes,
/// `WrongVersion` for an unknown version, `BundleFormat` again for a header or sizes that
/// do not fit.
pub open spec fn file_error(bytes: Seq<u8>) -> Option<RepositoryError> {
    if bytes.len() < PREFIX_BYTES || bytes.subrange(0, 4) != magic() {
        Some(RepositoryError::BundleFormat)
    } else if bytes[4] != FORMAT_VERSION {
        Some(RepositoryError::WrongVersion)
    } else if spec_u32_from_le_bytes(bytes.subrange(5, 9)) != HEADER_BYTES || bytes.len()
        < LIST_START || !header_valid(bytes.subrange(9, 76)) {
        Some(RepositoryError::BundleFormat)
    } else {
        let count = spec_u32_from_le_bytes(bytes.subrange(48, 52)) as nat;
        let encoded = spec_u64_from_le_bytes(bytes.subrange(52, 60)) as nat;
        let raw = spec_u64_from_le_bytes(bytes.subrange(60, 68)) as nat;
        if count > MAX_CHUNKS || bytes.len() != LIST_START + 20 * count + encoded || total_len(
            parse_chunks(bytes.subrange(76, (76 + 20 * count) as int), count),
        ) != raw {
            Some(RepositoryError::BundleFormat)
        } else {
            None
        }
    }
}

/// Whether `bundle` is what the bundle file `bytes` holds.
pub open spec fn file_holds(bytes: Seq<u8>, bundle: StoredBundle) -> bool {
    let count = bundle.info.chunk_count as nat;
    &&& header_is(bytes.subrange(9, 76), bundle.info)
    &&& bundle.chunks@ == parse_chunks(bytes.subrange(76, (76 + 20 * count) as int), count)
    &&& bundle.data@ == bytes.subrange((76 + 20 * count) as int, bytes.len() as int)
}

/// The canonical bytes of a well-formed bundle can be read, and hold the bundle.
pub proof fn lemma_file_round_trip(bundle: StoredBundle)
    requires
        bundle.wf(),
    ensures
        file_error(file_bytes(bundle.info, bundle.chunks@, bundle.data@)) is None,
        file_holds(file_bytes(bundle.info, bundle.chunks@, bundle.data@), bundle),
{
    lemma_auto_spec_u32_to_from_le_bytes();
    lemma_auto_spec_u64_to_from_le_bytes();
    lemma_header_round_trip(bundle.info);
    lemma_chunks_round_trip(bundle.chunks@);
    let info = bundle.info;
    let bytes = file_bytes(info, bundle.chunks@, bundle.data@);
    let head = header_bytes(info);
    let list = chunk_list_bytes(bundle.chunks@);
    let count = info.chunk_count as nat;
    assert(bytes.subrange(0, 4) =~= magic());
    assert(bytes[4] == FORMAT_VERSION);
    assert(bytes.subrange(5, 9) =~= spec_u32_to_le_bytes(HEADER_BYTES as u32));
    assert(bytes.subrange(9, 76) =~= head);
    assert(bytes.subrange(76, (76 + 20 * count) as int) =~= list);
    assert(bytes.subrange((76 + 20 * count) as int, bytes.len() as int) =~= bundle.data@);
    assert(bytes.subrange(48, 52) =~= head.subrange(39, 43));
    assert(bytes.subrange(52, 60) =~= head.subrange(43, 51));
    assert(bytes.subrange(60, 68) =~= head.subrange(51, 59));
}

/// Bytes that can be read as a bundle file are the canonical bytes of the bundle they hold.
pub proof fn lemma_file_bytes(bytes: Seq<u8>, bundle: StoredBundle)
    requires
        file_error(bytes) is None,
        file_holds(bytes, bundle),
    ensures
        file_bytes(bundle.info, bundle.chunks@, bundle.data@) == bytes,
        bundle.wf(),
{
    lemma_auto_spec_u32_to_from_le_bytes();
    lemma_auto_spec_u64_to_from_le_bytes();
    let info = bundle.info;
    let head = bytes.subrange(9, 76);
    lemma_header_bytes(head, info);
    let count = info.chunk_count as nat;
    assert(bytes.subrange(48, 52) =~= head.subrange(39, 43));
    assert(bytes.subrange(52, 60) =~= head.subrange(43, 51));
    assert(bytes.subrange(60, 68) =~= head.subrange(51, 59));
    lemma_chunks_bytes(bytes.subrange(76, (76 + 20 * count) as int), count);
    assert(spec_u32_to_le_bytes(HEADER_BYTES as u32) == bytes.subrange(5, 9));
    let built = file_bytes(info, bundle.chunks@, bundle.data@);
    assert(built =~= bytes.subrange(0, 4) + seq![bytes[4]] + bytes.subrange(5, 9) + bytes.subrange(
        9,
        76,
    ) + bytes.subrange(76, (76 + 20 * count) as int) + bytes.subrange(
        (76 + 20 * count) as int,
        bytes.len() as int,
    ));
    assert(built =~= bytes);
}

fn decode_header(bytes: &Vec<u8>) -> (r: Option<BundleInfo>)
    requires
        bytes@.len() >= LIST_START,
    ensures
        r is Some <==> header_valid(bytes@.subrange(9, 76)),
        r matches Some(info) ==> header_is(bytes@.subrange(9, 76), info) && info.id == (BundleId {
            hash: hash::Hash { high: 0, low: 0 },
        }),
{
    let ghost b = bytes@.subrange(9, 76);
    proof {
        assert forall|i: int| 0 <= i < 67 implies b[i] == bytes@[9 + i] by {}
        assert(b.subrange(39, 43) =~= bytes@.subrange(48, 52));
        assert(b.subrange(43, 51) =~= bytes@.subrange(52, 60));
        assert(b.subrange(51, 59) =~= bytes@.subrange(60, 68));
        assert(b.subrange(59, 67) =~= bytes@.subrange(68, 76));
    }
    let mode = match bytes[9] {
        0 => BundleMode::Data,
        1 => BundleMode::Meta,
        _ => {
            return None;
        },
    };
    let hash_method = match bytes[10] {
        0 => HashMethod::Blake2,
        1 => HashMethod::Murmur3,
        _ => {
            return None;
        },
    };
    let compression = match bytes[11] {
        0 => {
            if bytes[12] != 0 || bytes[13] != 0 {
                return None;
            }
            None
        },
        1 => {
            let method = match bytes[12] {
                0 => CompressionMethod::Deflate,
                1 => CompressionMethod::Brotli,
                2 => CompressionMethod::Lzma,
                3 => CompressionMethod::Lz4,
                _ => {
                    return None;
                },
            };
            Some(Compression { method, level: bytes[13] })
        },
        _ => {
            return None;
        },
    };
    if bytes[14] > 1 || bytes[15] != 0 {
        return None;
    }
    let mut key = [0u8; 32];
    let mut zero = true;
    let mut i: usize = 0;
    let ghost kb = bytes@.subrange(16, 48);
    while i < 32
        invariant
            i <= 32,
            bytes@.len() >= LIST_START,
            kb == bytes@.subrange(16, 48),
            forall|j: int| 0 <= j < i ==> key@[j] == kb[j],
            zero <==> forall|j: int| 0 <= j < i ==> kb[j] == 0,
        decreases 32 - i,
    {
        assert(kb[i as int] == bytes@[16 + i]);
        key[i] = bytes[16 + i];
        if bytes[16 + i] != 0 {
            zero = false;
        }
        i += 1;
    }
    proof {
        assert(kb =~= b.subrange(7, 39));
        assert(key@ =~= b.subrange(7, 39));
        if zero {
            assert forall|j: int| 7 <= j < 39 implies b[j] == 0 by {
                assert(kb[j - 7] == 0);
            }
        } else {
            let j = choose|j: int| 0 <= j < 32 && kb[j] != 0;
            assert(b[7 + j] != 0);
        }
    }
    let encryption = if bytes[14] == 0 {
        if !zero {
            return None;
        }
        None
    } else {
        Some(Encryption { method: EncryptionMethod::Sodium, key: PublicKey { bytes: key } })
    };
    let count = read_u32(bytes, 48);
    let encoded = read_u64(bytes, 52);
    let raw = read_u64(bytes, 60);
    let timestamp = read_u64(bytes, 68);
    if encoded > usize::MAX as u64 || raw > usize::MAX as u64 {
        return None;
    }
    Some(
        BundleInfo {
            id: BundleId { hash: hash::Hash { high: 0, low: 0 } },
            mode,
            hash_method,
            compression,
            encryption,
            chunk_count: count as usize,
            encoded_size: encoded as usize,
            raw_size: raw as usize,
            timestamp,
        },
    )
}

fn decode_chunks(bytes: &Vec<u8>, count: usize) -> (chunks: Vec<ChunkEntry>)
    requires
        LIST_START + ENTRY_BYTES * count <= bytes@.len(),
    ensures
        chunks@ == parse_chunks(bytes@.subrange(76, 76 + 20 * count), count as nat),
{
    let n = bytes.len();
    let ghost list_bytes = bytes@.subrange(76, 76 + 20 * count);
    let mut chunks: Vec<ChunkEntry> = Vec::new();
    let mut k: usize = 0;
    while k < count
        invariant
            k <= count,
            n == bytes@.len(),
            LIST_START + ENTRY_BYTES * count <= n,
            list_bytes == bytes@.subrange(76, 76 + 20 * count),
            chunks@ == parse_chunks(list_bytes, count as nat).subrange(0, k as int),
        decreases count - k,
    {
        let at = LIST_START + ENTRY_BYTES * k;
        let high = read_u64(bytes, at);
        let low = read_u64(bytes, at + 8);
        let len = read_u32(bytes, at + 16);
        proof {
            let e = list_bytes.subrange(20 * k, 20 * k + 20);
            assert(e.subrange(0, 8) =~= bytes@.subrange(at as int, at + 8));
            assert(e.subrange(8, 16) =~= bytes@.subrange(at + 8, at + 16));
            assert(e.subrange(16, 20) =~= bytes@.subrange(at + 16, at + 20));
        }
        chunks.push(ChunkEntry { hash: hash::Hash { high, low }, len });
        assert(chunks@ =~= parse_chunks(list_bytes, count as nat).subrange(0, k + 1));
        k += 1;
    }
    assert(chunks@ =~= parse_chunks(list_bytes, count as nat));
    chunks
}

/// Reads an encoded chunk list that stands alone, such as the list of a stream. It has to
/// consist of whole rows.
pub fn decode_list(bytes: &Vec<u8>) -> (r: Option<Vec<ChunkEntry>>)
    ensures
        r is Some <==> bytes@.len() % 20 == 0,
        r matches Some(chunks) ==> chunks@ == parse_chunks(bytes@, (bytes@.len() / 20) as nat)
            && chunk_list_bytes(chunks@) == bytes@,
{
    let n = bytes.len();
    if n % ENTRY_BYTES != 0 {
        return None;
    }
    let count = n / ENTRY_BYTES;
    let mut chunks: Vec<ChunkEntry> = Vec::new();
    let mut k: usize = 0;
    while k < count
        invariant
            k <= count,
            n == bytes@.len(),
            n == ENTRY_BYTES * count,
            chunks@ == parse_chunks(bytes@, count as nat).subrange(0, k as int),
        decreases count - k,
    {
        let at = ENTRY_BYTES * k;
        let high = read_u64(bytes, at);
        let low = read_u64(bytes, at + 8);
        let len = read_u32(bytes, at + 16);
        proof {
            let e = bytes@.subrange(20 * k, 20 * k + 20);
            assert(e.subrange(0, 8) =~= bytes@.subrange(at as int, at + 8));
            assert(e.subrange(8, 16) =~= bytes@.subrange(at + 8, at + 16));
            assert(e.subrange(16, 20) =~= bytes@.subrange(at + 16, at + 20));
        }
        chunks.push(ChunkEntry { hash: hash::Hash { high, low }, len });
        assert(chunks@ =~= parse_chunks(bytes@, count as nat).subrange(0, k + 1));
        k += 1;
    }
    assert(chunks@ =~= parse_chunks(bytes@, count as nat));
    proof {
        lemma_chunks_bytes(bytes@, count as nat);
    }
    Some(chunks)
}

/// Writes out a chunk list that stands alone.
pub fn encode_list(chunks: &Vec<ChunkEntry>) -> (out: Vec<u8>)
    ensures
        out@ == chunk_list_bytes(chunks@),
{
    let mut out: Vec<u8> = Vec::new();
    crate::bundle::encode_chunk_list(&mut out, chunks);
    assert(Seq::<u8>::empty() + chunk_list_bytes(chunks@) =~= chunk_list_bytes(chunks@));
    out
}

/// The bytes of a cache file: those of a bundle file without the data blob, followed by the
/// 16 bytes of the content-id.
pub open spec fn meta_bytes(info: BundleInfo, chunks: Seq<ChunkEntry>) -> Seq<u8> {
    file_bytes(info, chunks, Seq::empty()) + crate::bundle::hash_bytes(info.id.hash)
}

/// What stands in the way of reading `bytes` as a cache file, if anything.
pub open spec fn meta_error(bytes: Seq<u8>) -> Option<RepositoryError> {
    if bytes.len() < PREFIX_BYTES || bytes.subrange(0, 4) != magic() {
        Some(RepositoryError::BundleFormat)
    } else if bytes[4] != FORMAT_VERSION {
        Some(RepositoryError::WrongVersion)
    } else if spec_u32_from_le_bytes(bytes.subrange(5, 9)) != HEADER_BYTES || bytes.len()
        < LIST_START || !header_valid(bytes.subrange(9, 76)) {
        Some(RepositoryError::BundleFormat)
    } else {
        let count = spec_u32_from_le_bytes(bytes.subrange(48, 52)) as nat;
        let raw = spec_u64_from_le_bytes(bytes.subrange(60, 68)) as nat;
        if count > MAX_CHUNKS || bytes.len() != LIST_START + 20 * count + 16 || total_len(
            parse_chunks(bytes.subrange(76, (76 + 20 * count) as int), count),
        ) != raw {
            Some(RepositoryError::BundleFormat)
        } else {
            None
        }
    }
}

/// Whether `meta` is what the cache file `bytes` holds.
pub open spec fn meta_holds(bytes: Seq<u8>, meta: crate::bundle::BundleMeta) -> bool {
    let count = meta.info.chunk_count as nat;
    let tail = bytes.subrange((76 + 20 * count) as int, bytes.len() as int);
    &&& header_is(bytes.subrange(9, 76), meta.info)
    &&& meta.chunks@ == parse_chunks(bytes.subrange(76, (76 + 20 * count) as int), count)
    &&& meta.info.id.hash.high == spec_u64_from_le_bytes(tail.subrange(0, 8))
    &&& meta.info.id.hash.low == spec_u64_from_le_bytes(tail.subrange(8, 16))
}

/// The bytes of the cache file of a well-formed header and chunk list can be read, and
/// hold them.
pub proof fn lemma_meta_round_trip(meta: crate::bundle::BundleMeta)
    requires
        meta.wf(),
    ensures
        meta_error(meta_bytes(meta.info, meta.chunks@)) is None,
        meta_holds(meta_bytes(meta.info, meta.chunks@), meta),
{
    lemma_auto_spec_u32_to_from_le_bytes();
    lemma_auto_spec_u64_to_from_le_bytes();
    lemma_header_round_trip(meta.info);
    lemma_chunks_round_trip(meta.chunks@);
    let info = meta.info;
    let bytes = meta_bytes(info, meta.chunks@);
    let head = header_bytes(info);
    let list = chunk_list_bytes(meta.chunks@);
    let count = info.chunk_count as nat;
    let tail = bytes.subrange((76 + 20 * count) as int, bytes.len() as int);
    assert(bytes.subrange(0, 4) =~= magic());
    assert(bytes[4] == FORMAT_VERSION);
    assert(bytes.subrange(5, 9) =~= spec_u32_to_le_bytes(HEADER_BYTES as u32));
    assert(bytes.subrange(9, 76) =~= head);
    assert(bytes.subrange(76, (76 + 20 * count) as int) =~= list);
    assert(tail =~= crate::bundle::hash_bytes(info.id.hash));
    assert(tail.subrange(0, 8) =~= spec_u64_to_le_bytes(info.id.hash.high));
    assert(tail.subrange(8, 16) =~= spec_u64_to_le_bytes(info.id.hash.low));
    assert(bytes.subrange(48, 52) =~= head.subrange(39, 43));
    assert(bytes.subrange(60, 68) =~= head.subrange(51, 59));
}

/// Writes out a cache file.
pub fn encode_meta(meta: &crate::bundle::BundleMeta) -> (out: Vec<u8>)
    requires
        meta.wf(),
    ensures
        out@ == meta_bytes(meta.info, meta.chunks@),
{
    let empty: Vec<u8> = Vec::new();
    let mut out = crate::bundle::encode_file(&meta.info, &meta.chunks, &empty);
    let high = vstd::bytes::u64_to_le_bytes(meta.info.id.hash.high);
    let low = vstd::bytes::u64_to_le_bytes(meta.info.id.hash.low);
    let ghost front = out@;
    let mut i: usize = 0;
    while i < 8
        invariant
            i <= 8,
            high@.len() == 8,
            out@ == front + high@.subrange(0, i as int),
        decreases 8 - i,
    {
        out.push(high[i]);
        assert(out@ =~= front + high@.subrange(0, i + 1));
        i += 1;
    }
    let mut i: usize = 0;
    while i < 8
        invariant
            i <= 8,
            high@.len() == 8,
            low@.len() == 8,
            out@ == front + high@ + low@.subrange(0, i as int),
        decreases 8 - i,
    {
        out.push(low[i]);
        assert(out@ =~= front + high@ + low@.subrange(0, i + 1));
        i += 1;
    }
    assert(out@ =~= front + (high@ + low@));
    out
}

/// Reads a cache file. The outcome is an error exactly where `meta_error` names one; else
/// what is returned is the header and chunk list that the file holds.
pub fn decode_meta(bytes: &Vec<u8>) -> (r: Result<crate::bundle::BundleMeta, RepositoryError>)
    ensures
        match r {
            Ok(meta) => meta_error(bytes@) is None && meta_holds(bytes@, meta) && meta.wf(),
            Err(e) => meta_error(bytes@) == Some(e),
        },
{
    let n = bytes.len();
    if n < PREFIX_BYTES {
        return Err(RepositoryError::BundleFormat);
    }
    if bytes[0] != 0x5a || bytes[1] != 0x56 || bytes[2] != 0x4c || bytes[3] != 0x54 {
        assert(bytes@.subrange(0, 4)[0] == bytes@[0]);
        assert(bytes@.subrange(0, 4)[1] == bytes@[1]);
        assert(bytes@.subrange(0, 4)[2] == bytes@[2]);
        assert(bytes@.subrange(0, 4)[3] == bytes@[3]);
        return Err(RepositoryError::BundleFormat);
    }
    assert(bytes@.subrange(0, 4) =~= magic());
    if bytes[4] != FORMAT_VERSION {
        return Err(RepositoryError::WrongVersion);
    }
    if read_u32(bytes, 5) != HEADER_BYTES as u32 || n < LIST_START {
        return Err(RepositoryError::BundleFormat);
    }
    let draft = match decode_header(bytes) {
        Some(info) => info,
        None => {
            return Err(RepositoryError::BundleFormat);
        },
    };
    let count = draft.chunk_count;
    proof {
        let b = bytes@.subrange(9, 76);
        assert(b.subrange(39, 43) =~= bytes@.subrange(48, 52));
        assert(b.subrange(51, 59) =~= bytes@.subrange(60, 68));
    }
    if count > MAX_CHUNKS || (n - LIST_START) / ENTRY_BYTES < count {
        return Err(RepositoryError::BundleFormat);
    }
    let tail_start = LIST_START + ENTRY_BYTES * count;
    if n - tail_start != 16 {
        return Err(RepositoryError::BundleFormat);
    }
    let chunks = decode_chunks(bytes, count);
    match raw_length(&chunks) {
        Some(total) => {
            if total != draft.raw_size {
                return Err(RepositoryError::BundleFormat);
            }
        },
        None => {
            return Err(RepositoryError::BundleFormat);
        },
    }
    let high = read_u64(bytes, tail_start);
    let low = read_u64(bytes, tail_start + 8);
    proof {
        let tail = bytes@.subrange(tail_start as int, n as int);
        assert(tail.subrange(0, 8) =~= bytes@.subrange(tail_start as int, tail_start + 8));
        assert(tail.subrange(8, 16) =~= bytes@.subrange(tail_start + 8, tail_start + 16));
    }
    let info = BundleInfo {
        id: BundleId { hash: hash::Hash { high, low } },
        mode: draft.mode,
        hash_method: draft.hash_method,
        compression: draft.compression,
        encryption: draft.encryption,
        chunk_count: draft.chunk_count,
        encoded_size: draft.encoded_size,
        raw_size: draft.raw_size,
        timestamp: draft.timestamp,
    };
    Ok(crate::bundle::BundleMeta { info, chunks })
}

/// Reads a bundle file. The outcome is an error exactly where `file_error` names one. What
/// is returned is the bundle that the file holds, under the content-id that its bytes give.
pub fn decode_file(bytes: &Vec<u8>) -> (r: Result<StoredBundle, RepositoryError>)
    ensures
        match r {
            Ok(bundle) => {
                &&& file_error(bytes@) is None
                &&& file_holds(bytes@, bundle)
                &&& bundle.wf()
                &&& file_bytes(bundle.info, bundle.chunks@, bundle.data@) == bytes@
                &&& bundle.info.hash_method.hashes_to(bytes@, bundle.info.id.hash)
            },
            Err(e) => file_error(bytes@) == Some(e),
        },
{
    let n = bytes.len();
    if n < PREFIX_BYTES {
        return Err(RepositoryError::BundleFormat);
    }
    if bytes[0] != 0x5a || bytes[1] != 0x56 || bytes[2] != 0x4c || bytes[3] != 0x54 {
        assert(bytes@.subrange(0, 4)[0] == bytes@[0]);
        assert(bytes@.subrange(0, 4)[1] == bytes@[1]);
        assert(bytes@.subrange(0, 4)[2] == bytes@[2]);
        assert(bytes@.subrange(0, 4)[3] == bytes@[3]);
        return Err(RepositoryError::BundleFormat);
    }
    assert(bytes@.subrange(0, 4) =~= magic());
    if bytes[4] != FORMAT_VERSION {
        return Err(RepositoryError::WrongVersion);
    }
    if read_u32(bytes, 5) != HEADER_BYTES as u32 || n < LIST_START {
        return Err(RepositoryError::BundleFormat);
    }
    let draft = match decode_header(bytes) {
        Some(info) => info,
        None => {
            return Err(RepositoryError::BundleFormat);
        },
    };
    let count = draft.chunk_count;
    proof {
        let b = bytes@.subrange(9, 76);
        assert(b.subrange(39, 43) =~= bytes@.subrange(48, 52));
        assert(b.subrange(43, 51) =~= bytes@.subrange(52, 60));
        assert(b.subrange(51, 59) =~= bytes@.subrange(60, 68));
    }
    if count > MAX_CHUNKS || (n - LIST_START) / ENTRY_BYTES < count {
        return Err(RepositoryError::BundleFormat);
    }
    let data_start = LIST_START + ENTRY_BYTES * count;
    if n - data_start != draft.encoded_size {
        return Err(RepositoryError::BundleFormat);
    }
    let chunks = decode_chunks(bytes, count);
    match raw_length(&chunks) {
        Some(total) => {
            if total != draft.raw_size {
                return Err(RepositoryError::BundleFormat);
            }
        },
        None => {
            return Err(RepositoryError::BundleFormat);
        },
    }
    let data = crate::bundle::copy_range(bytes, data_start, n);
    let id = BundleId { hash: draft.hash_method.hash(bytes.as_slice()) };
    let info = BundleInfo {
        id,
        mode: draft.mode,
        hash_method: draft.hash_method,
        compression: draft.compression,
        encryption: draft.encryption,
        chunk_count: draft.chunk_count,
        encoded_size: draft.encoded_size,
        raw_size: draft.raw_size,
        timestamp: draft.timestamp,
    };
    let bundle = StoredBundle { info, chunks, data };
    proof {
        lemma_file_bytes(bytes@, bundle);
    }
    Ok(bundle)
}

} // verus!
