use crate::crypto::PublicKey;
use crate::hash::HashMethod;
use vstd::prelude::*;

verus! {

/// The compression algorithms a bundle can name.
#[derive(Clone, Copy, Debug, PartialEq, Eq, Structural)]
pub enum CompressionMethod {
    Deflate,
    Brotli,
    Lzma,
    Lz4,
}

/// A compression algorithm with its level.
#[derive(Clone, Copy, Debug, PartialEq, Eq, Structural)]
pub struct Compression {
    pub method: CompressionMethod,
    pub level: u8,
}

/// The encryption methods a bundle can name.
#[derive(Clone, Copy, Debug, PartialEq, Eq, Structural)]
pub enum EncryptionMethod {
    Sodium,
}

/// An encryption method with the public key of the recipient.
#[derive(Clone, Copy, Debug, PartialEq, Eq)]
pub struct Encryption {
    pub method: EncryptionMethod,
    pub key: PublicKey,
}

/// The chunking algorithms.
#[derive(Clone, Copy, Debug, PartialEq, Eq, Structural)]
pub enum ChunkerAlgorithm {
    /// Cuts every chunk after the same number of bytes.
    Fixed,
    /// Cuts where a rolling fingerprint of the content matches a mask.
    FastCdc,
}

/// A chunking algorithm with its parameter: the average chunk size is 2 to the power `bits`.
#[derive(Clone, Copy, Debug, PartialEq, Eq, Structural)]
pub struct ChunkerSpec {
    pub algorithm: ChunkerAlgorithm,
    pub bits: u8,
}

/// The decimal digits of `v`, without leading zeros.
pub open spec fn decimal(v: u8) -> Seq<u8> {
    if v >= 100 {
        seq![(48 + v / 100) as u8, (48 + (v / 10) % 10) as u8, (48 + v % 10) as u8]
    } else if v >= 10 {
        seq![(48 + v / 10) as u8, (48 + v % 10) as u8]
    } else {
        seq![(48 + v) as u8]
    }
}

/// Writes `v` in decimal digits.
pub fn encode_decimal(v: u8) -> (out: Vec<u8>)
    ensures
        out@ == decimal(v),
{
    let mut out: Vec<u8> = Vec::new();
    if v >= 100 {
        out.push(48 + v / 100);
        out.push(48 + (v / 10) % 10);
        out.push(48 + v % 10);
    } else if v >= 10 {
        out.push(48 + v / 10);
        out.push(48 + v % 10);
    } else {
        out.push(48 + v);
    }
    assert(out@ =~= decimal(v));
    out
}

/// Reads a number below 256 from its decimal digits. Anything but the digits of such a
/// number without leading zeros is refused.
pub fn decode_decimal(text: &[u8]) -> (r: Option<u8>)
    ensures
        match r {
            Some(v) => text@ == decimal(v),
            None => forall|v: u8| text@ != #[trigger] decimal(v),
        },
{
    let n = text.len();
    if n == 0 || n > 3 {
        return None;
    }
    let mut value: u32 = 0;
    let mut i: usize = 0;
    while i < n
        invariant
            i <= n <= 3,
            n == text@.len(),
            forall|j: int| 0 <= j < i ==> 48 <= #[trigger] text@[j] <= 57,
            i == 0 ==> value == 0,
            i == 1 ==> value == text@[0] - 48,
            i == 2 ==> value == (text@[0] - 48) * 10 + (text@[1] - 48),
            i == 3 ==> value == (text@[0] - 48) * 100 + (text@[1] - 48) * 10 + (text@[2] - 48),
        decreases n - i,
    {
        let d = text[i];
        if d < 48 || d > 57 {
            assert forall|v: u8| text@ != #[trigger] decimal(v) by {
                if text@ == decimal(v) {
                    assert(decimal(v)[i as int] == d);
                }
            }
            return None;
        }
        value = value * 10 + (d - 48) as u32;
        i += 1;
    }
    if value > 255 || (n > 1 && text[0] == 48) {
        assert forall|v: u8| text@ != #[trigger] decimal(v) by {
            if text@ == decimal(v) {
                assert(decimal(v)[0] == text@[0]);
                if n == 3 {
                    assert(decimal(v)[1] == text@[1]);
                    assert(decimal(v)[2] == text@[2]);
                }
            }
        }
        return None;
    }
    let v = value as u8;
    assert(text@ =~= decimal(v));
    Some(v)
}

/// The name of a chunking strategy: `fixed/` or `fastcdc/` and the exponent in decimal.
pub open spec fn chunker_name(spec: ChunkerSpec) -> Seq<u8> {
    match spec.algorithm {
        ChunkerAlgorithm::Fixed => seq![102u8, 105u8, 120u8, 101u8, 100u8, 47u8] + decimal(spec.bits),
        ChunkerAlgorithm::FastCdc => seq![102u8, 97u8, 115u8, 116u8, 99u8, 100u8, 99u8, 47u8]
            + decimal(spec.bits),
    }
}

impl ChunkerSpec {
    /// The name of the strategy, such as `fastcdc/16`.
    pub fn to_name(&self) -> (out: Vec<u8>)
        ensures
            out@ == chunker_name(*self),
    {
        let mut out: Vec<u8> = Vec::new();
        match self.algorithm {
            ChunkerAlgorithm::Fixed => {
                out.push(102u8);
                out.push(105u8);
                out.push(120u8);
                out.push(101u8);
                out.push(100u8);
                out.push(47u8);
            },
            ChunkerAlgorithm::FastCdc => {
                out.push(102u8);
                out.push(97u8);
                out.push(115u8);
                out.push(116u8);
                out.push(99u8);
                out.push(100u8);
                out.push(99u8);
                out.push(47u8);
            },
        }
        let ghost head = out@;
        let digits = encode_decimal(self.bits);
        let mut i: usize = 0;
        while i < digits.len()
            invariant
                i <= digits@.len(),
                out@ == head + digits@.subrange(0, i as int),
            decreases digits@.len() - i,
        {
            out.push(digits[i]);
            assert(out@ =~= head + digits@.subrange(0, i + 1));
            i += 1;
        }
        assert(digits@.subrange(0, digits@.len() as int) =~= digits@);
        out
    }

    /// The strategy that `name` names, or nothing if it names none. A name is taken in the
    /// one form in which `to_name` writes it.
    pub fn from_name(name: &[u8]) -> (r: Option<ChunkerSpec>)
        ensures
            match r {
                Some(spec) => name@ == chunker_name(spec),
                None => forall|spec: ChunkerSpec| name@ != #[trigger] chunker_name(spec),
            },
    {
        let n = name.len();
        if n > 6 && name[0] == 102 && name[1] == 105 && name[2] == 120 && name[3] == 101 && name[4]
            == 100 && name[5] == 47 {
            let digits = vstd::slice::slice_subrange(name, 6, n);
            match decode_decimal(digits) {
                Some(bits) => {
                    let spec = ChunkerSpec { algorithm: ChunkerAlgorithm::Fixed, bits };
                    assert(name@ =~= chunker_name(spec));
                    Some(spec)
                },
                None => {
                    assert forall|spec: ChunkerSpec| name@ != #[trigger] chunker_name(spec) by {
                        if name@ == chunker_name(spec) {
                            assert(chunker_name(spec)[1] == 105);
                            assert(digits@ =~= decimal(spec.bits));
                        }
                    }
                    None
                },
            }
        } else if n > 8 && name[0] == 102 && name[1] == 97 && name[2] == 115 && name[3] == 116
            && name[4] == 99 && name[5] == 100 && name[6] == 99 && name[7] == 47 {
            let digits = vstd::slice::slice_subrange(name, 8, n);
            match decode_decimal(digits) {
                Some(bits) => {
                    let spec = ChunkerSpec { algorithm: ChunkerAlgorithm::FastCdc, bits };
                    assert(name@ =~= chunker_name(spec));
                    Some(spec)
                },
                None => {
                    assert forall|spec: ChunkerSpec| name@ != #[trigger] chunker_name(spec) by {
                        if name@ == chunker_name(spec) {
                            assert(chunker_name(spec)[1] == 97);
                            assert(digits@ =~= decimal(spec.bits));
                        }
                    }
                    None
                },
            }
        } else {
            assert forall|spec: ChunkerSpec| name@ != #[trigger] chunker_name(spec) by {
                if name@ == chunker_name(spec) {
                    let d = decimal(spec.bits);
                    assert(d.len() >= 1);
                    match spec.algorithm {
                        ChunkerAlgorithm::Fixed => {
                            assert(chunker_name(spec)[0] == 102);
                            assert(chunker_name(spec)[1] == 105);
                            assert(chunker_name(spec)[2] == 120);
                            assert(chunker_name(spec)[3] == 101);
                            assert(chunker_name(spec)[4] == 100);
                            assert(chunker_name(spec)[5] == 47);
                        },
                        ChunkerAlgorithm::FastCdc => {
                            assert(chunker_name(spec)[0] == 102);
                            assert(chunker_name(spec)[1] == 97);
                            assert(chunker_name(spec)[2] == 115);
                            assert(chunker_name(spec)[3] == 116);
                            assert(chunker_name(spec)[4] == 99);
                            assert(chunker_name(spec)[5] == 100);
                            assert(chunker_name(spec)[6] == 99);
                            assert(chunker_name(spec)[7] == 47);
                        },
                    }
                }
            }
            None
        }
    }
}

/// The name of a compression algorithm.
pub open spec fn method_name(method: CompressionMethod) -> Seq<u8> {
    match method {
        CompressionMethod::Deflate => seq![100u8, 101u8, 102u8, 108u8, 97u8, 116u8, 101u8],
        CompressionMethod::Brotli => seq![98u8, 114u8, 111u8, 116u8, 108u8, 105u8],
        CompressionMethod::Lzma => seq![108u8, 122u8, 109u8, 97u8],
        CompressionMethod::Lz4 => seq![108u8, 122u8, 52u8],
    }
}

/// The name of a compression: the algorithm, a slash, and the level in decimal, such as
/// `brotli/3`.
pub open spec fn compression_name(c: Compression) -> Seq<u8> {
    method_name(c.method) + seq![47u8] + decimal(c.level)
}

/// The name of a hash method: `blake2` or `murmur3`.
pub open spec fn hash_name(method: HashMethod) -> Seq<u8> {
    match method {
        HashMethod::Blake2 => seq![98u8, 108u8, 97u8, 107u8, 101u8, 50u8],
        HashMethod::Murmur3 => seq![109u8, 117u8, 114u8, 109u8, 117u8, 114u8, 51u8],
    }
}

/// Whether two byte strings are the same.
pub fn same_text(a: &[u8], b: &Vec<u8>) -> (r: bool)
    ensures
        r == (a@ == b@),
{
    if a.len() != b.len() {
        return false;
    }
    let mut i: usize = 0;
    while i < a.len()
        invariant
            i <= a@.len(),
            a@.len() == b@.len(),
            forall|j: int| 0 <= j < i ==> a@[j] == b@[j],
        decreases a@.len() - i,
    {
        if a[i] != b[i] {
            return false;
        }
        i += 1;
    }
    assert(a@ =~= b@);
    true
}

impl Compression {
    /// The name of the compression, such as `brotli/3`.
    pub fn to_name(&self) -> (out: Vec<u8>)
        ensures
            out@ == compression_name(*self),
    {
        let mut out: Vec<u8> = Vec::new();
        match self.method {
            CompressionMethod::Deflate => {
                out.push(100u8);
                out.push(101u8);
                out.push(102u8);
                out.push(108u8);
                out.push(97u8);
                out.push(116u8);
                out.push(101u8);
            },
            CompressionMethod::Brotli => {
                out.push(98u8);
                out.push(114u8);
                out.push(111u8);
                out.push(116u8);
                out.push(108u8);
                out.push(105u8);
            },
            CompressionMethod::Lzma => {
                out.push(108u8);
                out.push(122u8);
                out.push(109u8);
                out.push(97u8);
            },
            CompressionMethod::Lz4 => {
                out.push(108u8);
                out.push(122u8);
                out.push(52u8);
            },
        }
        assert(out@ =~= method_name(self.method));
        out.push(47u8);
        let ghost head = out@;
        let digits = encode_decimal(self.level);
        let mut i: usize = 0;
        while i < digits.len()
            invariant
                i <= digits@.len(),
                out@ == head + digits@.subrange(0, i as int),
            decreases digits@.len() - i,
        {
            out.push(digits[i]);
            assert(out@ =~= head + digits@.subrange(0, i + 1));
            i += 1;
        }
        assert(digits@.subrange(0, digits@.len() as int) =~= digits@);
        out
    }

    /// The compression that `name` names, or nothing if it names none: every algorithm is
    /// tried with every level.
    pub fn from_name(name: &[u8]) -> (r: Option<Compression>)
        ensures
            match r {
                Some(c) => name@ == compression_name(c),
                None => forall|c: Compression| name@ != #[trigger] compression_name(c),
            },
    {
        let mut m: u8 = 0;
        while m < 4
            invariant
                m <= 4,
                forall|c: Compression|
                    method_number(c.method) < m ==> name@ != #[trigger] compression_name(c),
            decreases 4 - m,
        {
            let method = if m == 0 {
                CompressionMethod::Deflate
            } else if m == 1 {
                CompressionMethod::Brotli
            } else if m == 2 {
                CompressionMethod::Lzma
            } else {
                CompressionMethod::Lz4
            };
            let mut level: u8 = 0;
            loop
                invariant
                    method_number(method) == m,
                    forall|c: Compression|
                        method_number(c.method) < m ==> name@ != #[trigger] compression_name(c),
                    forall|c: Compression|
                        c.method == method && c.level < level ==> name@
                            != #[trigger] compression_name(c),
                ensures
                    forall|c: Compression|
                        method_number(c.method) <= m ==> name@ != #[trigger] compression_name(c),
                decreases 255 - level,
            {
                let c = Compression { method, level };
                if same_text(name, &c.to_name()) {
                    return Some(c);
                }
                if level == 255 {
                    break;
                }
                level += 1;
            }
            m += 1;
        }
        None
    }
}

/// The number of a compression algorithm.
pub open spec fn method_number(method: CompressionMethod) -> int {
    match method {
        CompressionMethod::Deflate => 0,
        CompressionMethod::Brotli => 1,
        CompressionMethod::Lzma => 2,
        CompressionMethod::Lz4 => 3,
    }
}

impl HashMethod {
    /// The name of the hash method.
    pub fn name(&self) -> (out: Vec<u8>)
        ensures
            out@ == hash_name(*self),
    {
        let mut out: Vec<u8> = Vec::new();
        match self {
            HashMethod::Blake2 => {
                out.push(98u8);
                out.push(108u8);
                out.push(97u8);
                out.push(107u8);
                out.push(101u8);
                out.push(50u8);
            },
            HashMethod::Murmur3 => {
                out.push(109u8);
                out.push(117u8);
                out.push(114u8);
                out.push(109u8);
                out.push(117u8);
                out.push(114u8);
                out.push(51u8);
            },
        }
        assert(out@ =~= hash_name(*self));
        out
    }

    /// The hash method that `name` names, or nothing if it names none.
    pub fn from_name(name: &[u8]) -> (r: Option<HashMethod>)
        ensures
            match r {
                Some(m) => name@ == hash_name(m),
                None => forall|m: HashMethod| name@ != #[trigger] hash_name(m),
            },
    {
        if same_text(name, &HashMethod::Blake2.name()) {
            Some(HashMethod::Blake2)
        } else if same_text(name, &HashMethod::Murmur3.name()) {
            Some(HashMethod::Murmur3)
        } else {
            assert forall|m: HashMethod| name@ != #[trigger] hash_name(m) by {
                match m {
                    HashMethod::Blake2 => {},
                    HashMethod::Murmur3 => {},
                }
            }
            None
        }
    }
}

/// The configuration of a repository.
#[derive(Clone, Copy, Debug, PartialEq, Eq)]
pub struct Config {
    /// The size, in bytes, at which a bundle is closed.
    pub bundle_size: usize,
    pub chunker: ChunkerSpec,
    pub compression: Option<Compression>,
    pub encryption: Option<Encryption>,
    pub hash: HashMethod,
}

/// Smallest accepted exponent of the average chunk size.
pub const MIN_CHUNK_BITS: u8 = 6;

/// Largest accepted exponent of the average chunk size.
pub const MAX_CHUNK_BITS: u8 = 26;

impl Config {
    /// Whether the configuration can be used: bundles have room and the chunk size is in range.
    pub open spec fn valid(&self) -> bool {
        &&& self.bundle_size > 0
        &&& MIN_CHUNK_BITS <= self.chunker.bits <= MAX_CHUNK_BITS
    }

    /// Whether the configuration can be used.
    pub fn is_valid(&self) -> (r: bool)
        ensures
            r == self.valid(),
    {
        self.bundle_size > 0 && MIN_CHUNK_BITS <= self.chunker.bits && self.chunker.bits
            <= MAX_CHUNK_BITS
    }
}

/// The default configuration: bundles of 25 MiB, FastCDC chunks of 64 KiB on average,
/// BLAKE2b fingerprints, Brotli at level 3, no encryption.
pub open spec fn default_config() -> Config {
    Config {
        bundle_size: 26214400,
        chunker: ChunkerSpec { algorithm: ChunkerAlgorithm::FastCdc, bits: 16 },
        compression: Some(Compression { method: CompressionMethod::Brotli, level: 3 }),
        encryption: None,
        hash: HashMethod::Blake2,
    }
}

impl Default for Config {
    fn default() -> (c: Config)
        ensures
            c == default_config(),
    {
        Config {
            bundle_size: 26214400,
            chunker: ChunkerSpec { algorithm: ChunkerAlgorithm::FastCdc, bits: 16 },
            compression: Some(Compression { method: CompressionMethod::Brotli, level: 3 }),
            encryption: None,
            hash: HashMethod::Blake2,
        }
    }
}

} // verus!
