use vstd::prelude::*;

verus! {

/// A 128-bit content fingerprint, treated as an opaque fixed-size key.
#[derive(Clone, Copy, Debug, PartialEq, Eq, Hash, PartialOrd, Ord, Structural)]
pub struct Hash {
    pub high: u64,
    pub low: u64,
}

/// The fingerprint functions a repository can be configured with.
#[derive(Clone, Copy, Debug, PartialEq, Eq, Structural)]
pub enum HashMethod {
    Blake2,
    Murmur3,
}

/// The 16-byte BLAKE2b digest, without key, of `data`, as `blake2_rfc` computes it.
pub uninterp spec fn blake2b_128(data: Seq<u8>) -> Seq<u8>;

/// The big-endian value of eight bytes.
pub open spec fn be_u64(s: Seq<u8>) -> int
    recommends
        s.len() == 8,
{
    s[0] * 0x0100_0000_0000_0000 + s[1] * 0x0001_0000_0000_0000 + s[2] * 0x0000_0100_0000_0000
        + s[3] * 0x0000_0001_0000_0000 + s[4] * 0x0000_0000_0100_0000 + s[5]
        * 0x0000_0000_0001_0000 + s[6] * 0x0000_0000_0000_0100 + s[7]
}

/// The fingerprint that a 16-byte digest stands for: its first half is `high`, its second `low`.
pub open spec fn hash_of_digest(digest: Seq<u8>) -> Hash
    recommends
        digest.len() == 16,
{
    Hash { high: be_u64(digest.subrange(0, 8)) as u64, low: be_u64(digest.subrange(8, 16)) as u64 }
}

/// The BLAKE2b-128 fingerprint of `data`.
pub open spec fn blake2_hash(data: Seq<u8>) -> Hash {
    hash_of_digest(blake2b_128(data))
}

/// Calls `blake2_rfc::blake2b::blake2b` with a 16-byte output and no key. The digest is a
/// function of the data alone and has the length that was asked for.
#[verifier::external_body]
fn blake2b_digest(data: &[u8]) -> (out: Vec<u8>)
    ensures
        out@ == blake2b_128(data@),
        out@.len() == 16,
{
    blake2_rfc::blake2b::blake2b(16, &[], data).as_bytes().to_vec()
}

/// Calls `murmurhash3::murmurhash3_x64_128` with seed 0. It reads the input in words of
/// eight bytes and in the machine's byte order, so the bytes are handed over in a buffer of
/// their own, and nothing is claimed of the two words it returns.
#[verifier::external_body]
fn murmur3_digest(data: &[u8]) -> (out: (u64, u64)) {
    let owned: Vec<u8> = data.to_vec();
    murmurhash3::murmurhash3_x64_128(&owned, 0)
}

fn read_be_u64(bytes: &Vec<u8>, at: usize) -> (v: u64)
    requires
        at + 8 <= bytes.len(),
    ensures
        v == be_u64(bytes@.subrange(at as int, at + 8)),
{
    let b0 = bytes[at] as u64;
    let b1 = bytes[at + 1] as u64;
    let b2 = bytes[at + 2] as u64;
    let b3 = bytes[at + 3] as u64;
    let b4 = bytes[at + 4] as u64;
    let b5 = bytes[at + 5] as u64;
    let b6 = bytes[at + 6] as u64;
    let b7 = bytes[at + 7] as u64;
    b0 * 0x0100_0000_0000_0000 + b1 * 0x0001_0000_0000_0000 + b2 * 0x0000_0100_0000_0000 + b3
        * 0x0000_0001_0000_0000 + b4 * 0x0000_0000_0100_0000 + b5 * 0x0000_0000_0001_0000 + b6
        * 0x0000_0000_0000_0100 + b7
}

impl HashMethod {
    /// Whether `h` is a fingerprint of `data` under this method. BLAKE2b pins the value;
    /// of Murmur3 nothing is stated.
    pub open spec fn hashes_to(self, data: Seq<u8>, h: Hash) -> bool {
        self is Blake2 ==> h == blake2_hash(data)
    }

    /// Fingerprints `data`.
    pub fn hash(&self, data: &[u8]) -> (h: Hash)
        ensures
            self.hashes_to(data@, h),
    {
        match self {
            HashMethod::Blake2 => {
                let digest = blake2b_digest(data);
                let high = read_be_u64(&digest, 0);
                let low = read_be_u64(&digest, 8);
                Hash { high, low }
            },
            HashMethod::Murmur3 => {
                let (high, low) = murmur3_digest(data);
                Hash { high, low }
            },
        }
    }
}

} // verus!
