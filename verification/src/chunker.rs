use crate::config::{ChunkerAlgorithm, ChunkerSpec, MAX_CHUNK_BITS, MIN_CHUNK_BITS};
use vstd::prelude::*;

verus! {

/// Two to the power `bits`.
pub open spec fn two_to(bits: nat) -> nat
    decreases bits,
{
    if bits == 0 {
        1
    } else {
        2 * two_to((bits - 1) as nat)
    }
}

/// Powers of two grow with the exponent, and two to the 26 is 67108864.
pub proof fn lemma_two_to(a: nat, b: nat)
    requires
        a <= b,
    ensures
        0 < two_to(a) <= two_to(b),
        two_to(26) == 67108864,
    decreases b,
{
    if a < b {
        lemma_two_to(a, (b - 1) as nat);
    } else if a > 0 {
        lemma_two_to((a - 1) as nat, (a - 1) as nat);
    }
    assert(two_to(26) == 67108864) by {
        reveal_with_fuel(two_to, 27);
    }
}

/// The word that the rolling fingerprint mixes in for the byte `b`.
pub open spec fn gear(b: u8) -> u64 {
    (((b as int + 1) * 0x9E37_79B9_7F4A_7C15) % 0x1_0000_0000_0000_0000) as u64
}

/// The rolling fingerprint of `data[from..to]`: each byte shifts it left by one bit and adds
/// the byte's gear word. Its low `k` bits depend on the last `k` bytes alone.
pub open spec fn fingerprint(data: Seq<u8>, from: int, to: int) -> u64
    decreases to - from,
{
    if to <= from {
        0
    } else {
        ((fingerprint(data, from, to - 1) as int * 2 + gear(data[to - 1]) as int)
            % 0x1_0000_0000_0000_0000) as u64
    }
}

/// A chunking strategy with its sizes: no chunk but the last of a stream is shorter than
/// `min` or as short, none is longer than `max`, and within those bounds a chunk ends
/// where the rolling fingerprint of its content is a multiple of a modulus.
#[derive(Clone, Copy, Debug, PartialEq, Eq, Structural)]
pub struct Chunker {
    pub min: usize,
    pub avg: usize,
    pub max: usize,
    pub short_modulus: u64,
    pub long_modulus: u64,
}

/// Largest chunk that any strategy cuts.
pub const MAX_CHUNK_SIZE: usize = 0x2000_0000;

impl Chunker {
    /// Whether the sizes are in order.
    pub open spec fn wf(&self) -> bool {
        &&& 0 < self.min <= self.avg <= self.max <= MAX_CHUNK_SIZE
        &&& self.short_modulus > 0
        &&& self.long_modulus > 0
    }

    /// The strategy that `spec` names. Fixed chunks have `min`, `avg` and `max` all two to
    /// the power `bits`. Content-defined chunks have that average, a quarter of it as `min`
    /// and eight times as `max`; up to the average a cut needs a multiple of twice the
    /// average, beyond it a multiple of half the average.
    pub open spec fn of(spec: ChunkerSpec) -> Chunker {
        let avg = two_to(spec.bits as nat);
        match spec.algorithm {
            ChunkerAlgorithm::Fixed => Chunker {
                min: avg as usize,
                avg: avg as usize,
                max: avg as usize,
                short_modulus: 1,
                long_modulus: 1,
            },
            ChunkerAlgorithm::FastCdc => Chunker {
                min: (avg / 4) as usize,
                avg: avg as usize,
                max: (avg * 8) as usize,
                short_modulus: (avg * 2) as u64,
                long_modulus: (avg / 2) as u64,
            },
        }
    }

    /// Makes the strategy that `spec` names.
    pub fn create(spec: ChunkerSpec) -> (c: Chunker)
        requires
            MIN_CHUNK_BITS <= spec.bits <= MAX_CHUNK_BITS,
        ensures
            c == Chunker::of(spec),
            c.wf(),
    {
        let mut avg: usize = 1;
        let mut i: u8 = 0;
        while i < spec.bits
            invariant
                i <= spec.bits <= MAX_CHUNK_BITS,
                avg == two_to(i as nat),
                avg <= 67108864,
            decreases spec.bits - i,
        {
            proof {
                lemma_two_to((i + 1) as nat, 26);
            }
            avg = avg * 2;
            i += 1;
        }
        proof {
            lemma_two_to(6, spec.bits as nat);
            lemma_two_to(spec.bits as nat, 26);
            assert(two_to(6) == 64) by {
                reveal_with_fuel(two_to, 7);
            }
        }
        match spec.algorithm {
            ChunkerAlgorithm::Fixed => Chunker {
                min: avg,
                avg,
                max: avg,
                short_modulus: 1,
                long_modulus: 1,
            },
            ChunkerAlgorithm::FastCdc => Chunker {
                min: avg / 4,
                avg,
                max: avg * 8,
                short_modulus: (avg * 2) as u64,
                long_modulus: (avg / 2) as u64,
            },
        }
    }

    /// Whether a chunk that starts at `start` ends at `end`: it has reached `max`, or it is
    /// longer than `min` and the fingerprint of what lies beyond its first `min` bytes is a
    /// multiple of the modulus for its length.
    pub open spec fn boundary(&self, data: Seq<u8>, start: int, end: int) -> bool {
        let len = end - start;
        ||| len >= self.max
        ||| len > self.min && fingerprint(data, start + self.min, end) % (if len > self.avg {
            self.long_modulus
        } else {
            self.short_modulus
        }) == 0
    }

    /// The end of the chunk that starts at `start`, searched from `end` on: the first
    /// boundary, or the end of the data.
    pub open spec fn next_cut(&self, data: Seq<u8>, start: int, end: int) -> int
        decreases data.len() - end,
    {
        if end >= data.len() {
            data.len() as int
        } else if self.boundary(data, start, end) {
            end
        } else {
            self.next_cut(data, start, end + 1)
        }
    }

    /// The ends of the chunks of `data[start..]`, in order.
    pub open spec fn cuts(&self, data: Seq<u8>, start: int) -> Seq<int>
        decreases data.len() - start,
    {
        if start < 0 || start >= data.len() {
            Seq::empty()
        } else {
            let end = self.next_cut(data, start, start + 1);
            if end <= start || end > data.len() {
                Seq::empty()
            } else {
                seq![end] + self.cuts(data, end)
            }
        }
    }

    /// The cut that is searched from `end` on lies at `end` or beyond, within the data, and
    /// no place between is a boundary.
    pub proof fn lemma_next_cut(&self, data: Seq<u8>, start: int, end: int)
        requires
            self.wf(),
            0 <= start < end <= data.len(),
            end - start <= self.max,
            forall|q: int| start < q < end ==> !self.boundary(data, start, q),
        ensures
            end <= self.next_cut(data, start, end) <= data.len(),
            self.next_cut(data, start, end) - start <= self.max,
            self.next_cut(data, start, end) < data.len() ==> self.boundary(
                data,
                start,
                self.next_cut(data, start, end),
            ),
            forall|q: int|
                start < q < self.next_cut(data, start, end) ==> !self.boundary(data, start, q),
        decreases data.len() - end,
    {
        if end < data.len() && !self.boundary(data, start, end) {
            self.lemma_next_cut(data, start, end + 1);
        }
    }

    /// The fingerprint of a chunk's content is the same wherever the data goes on.
    pub proof fn lemma_fingerprint_prefix(a: Seq<u8>, b: Seq<u8>, from: int, to: int)
        requires
            0 <= from,
            to <= a.len(),
            to <= b.len(),
            forall|i: int| from <= i < to ==> a[i] == b[i],
        ensures
            fingerprint(a, from, to) == fingerprint(b, from, to),
        decreases to - from,
    {
        if to > from {
            Self::lemma_fingerprint_prefix(a, b, from, to - 1);
        }
    }

    /// Whether a place is a boundary depends on the chunk's own bytes alone.
    pub proof fn lemma_boundary_prefix(&self, a: Seq<u8>, b: Seq<u8>, start: int, end: int)
        requires
            0 <= start <= end,
            end <= a.len(),
            end <= b.len(),
            forall|i: int| start <= i < end ==> a[i] == b[i],
        ensures
            self.boundary(a, start, end) == self.boundary(b, start, end),
    {
        if end - start > self.min {
            Self::lemma_fingerprint_prefix(a, b, start + self.min, end);
        }
    }

    /// In a prefix of the data a chunk ends where it ends in the data, or at the end of the
    /// prefix if that comes first.
    pub proof fn lemma_next_cut_prefix(&self, data: Seq<u8>, n: int, start: int, end: int)
        requires
            0 <= start < end <= n <= data.len(),
        ensures
            self.next_cut(data.subrange(0, n), start, end) == (if self.next_cut(data, start, end)
                < n {
                self.next_cut(data, start, end)
            } else {
                n
            }),
            end <= self.next_cut(data, start, end) <= data.len(),
        decreases n - end,
    {
        let prefix = data.subrange(0, n);
        if end < n {
            self.lemma_boundary_prefix(prefix, data, start, end);
            if !self.boundary(data, start, end) {
                self.lemma_next_cut_prefix(data, n, start, end + 1);
            }
        } else {
            self.lemma_cut_bounds(data, start, end);
        }
    }

    /// A cut lies at or beyond the place from which it is searched, within the data.
    pub proof fn lemma_cut_bounds(&self, data: Seq<u8>, start: int, end: int)
        requires
            end <= data.len(),
        ensures
            end <= self.next_cut(data, start, end) <= data.len(),
        decreases data.len() - end,
    {
        if end < data.len() && !self.boundary(data, start, end) {
            self.lemma_cut_bounds(data, start, end + 1);
        }
    }

    /// Every cut of `data[start..]` lies beyond `start`, within the data.
    pub proof fn lemma_cuts_bounds(&self, data: Seq<u8>, start: int)
        requires
            0 <= start,
        ensures
            forall|c: int| #[trigger]
                self.cuts(data, start).contains(c) ==> start < c <= data.len(),
        decreases data.len() - start,
    {
        if start < data.len() {
            let end = self.next_cut(data, start, start + 1);
            self.lemma_cut_bounds(data, start, start + 1);
            self.lemma_cuts_bounds(data, end);
            let rest = self.cuts(data, end);
            assert forall|c: int| #[trigger] self.cuts(data, start).contains(c) implies start < c
                <= data.len() by {
                let all = seq![end] + rest;
                let i = choose|i: int| 0 <= i < all.len() && all[i] == c;
                if i > 0 {
                    assert(rest[i - 1] == c);
                    assert(rest.contains(c));
                }
            }
        }
    }

    /// Stability under appending: the cuts of a prefix of the data are the cuts of the data
    /// that lie within the prefix, and the end of the prefix. So data that is appended moves
    /// no boundary but the last.
    pub proof fn lemma_cuts_prefix(&self, data: Seq<u8>, n: int, start: int, c: int)
        requires
            0 <= start <= n <= data.len(),
            c < n,
        ensures
            self.cuts(data.subrange(0, n), start).contains(c) <==> self.cuts(data, start).contains(
                c,
            ),
        decreases n - start,
    {
        let prefix = data.subrange(0, n);
        if start < n {
            self.lemma_next_cut_prefix(data, n, start, start + 1);
            let whole_end = self.next_cut(data, start, start + 1);
            let part_end = self.next_cut(prefix, start, start + 1);
            let whole = seq![whole_end] + self.cuts(data, whole_end);
            let part = seq![part_end] + self.cuts(prefix, part_end);
            assert(self.cuts(data, start) == whole);
            assert(self.cuts(prefix, start) == part);
            if whole_end < n {
                self.lemma_cuts_prefix(data, n, whole_end, c);
                if part.contains(c) {
                    let i = choose|i: int| 0 <= i < part.len() && part[i] == c;
                    if i > 0 {
                        assert(self.cuts(prefix, part_end)[i - 1] == c);
                        assert(self.cuts(prefix, part_end).contains(c));
                        let j = choose|j: int|
                            0 <= j < self.cuts(data, whole_end).len() && self.cuts(
                                data,
                                whole_end,
                            )[j] == c;
                        assert(whole[j + 1] == c);
                    } else {
                        assert(whole[0] == c);
                    }
                }
                if whole.contains(c) {
                    let i = choose|i: int| 0 <= i < whole.len() && whole[i] == c;
                    if i > 0 {
                        assert(self.cuts(data, whole_end)[i - 1] == c);
                        assert(self.cuts(data, whole_end).contains(c));
                        let j = choose|j: int|
                            0 <= j < self.cuts(prefix, part_end).len() && self.cuts(
                                prefix,
                                part_end,
                            )[j] == c;
                        assert(part[j + 1] == c);
                    } else {
                        assert(part[0] == c);
                    }
                }
            } else {
                self.lemma_cuts_bounds(data, whole_end);
                self.lemma_cuts_bounds(prefix, part_end);
                if whole.contains(c) {
                    let i = choose|i: int| 0 <= i < whole.len() && whole[i] == c;
                    if i > 0 {
                        assert(self.cuts(data, whole_end)[i - 1] == c);
                        assert(self.cuts(data, whole_end).contains(c));
                    }
                }
                if part.contains(c) {
                    let i = choose|i: int| 0 <= i < part.len() && part[i] == c;
                    if i > 0 {
                        assert(self.cuts(prefix, part_end)[i - 1] == c);
                        assert(self.cuts(prefix, part_end).contains(c));
                    }
                }
            }
        } else {
            self.lemma_cuts_bounds(data, start);
        }
    }

    /// The first `upto` chunks of `data` under the cuts `cuts`, one after the other.
    pub open spec fn joined(data: Seq<u8>, cuts: Seq<int>, upto: int) -> Seq<u8>
        decreases upto,
    {
        if upto <= 0 {
            Seq::empty()
        } else {
            Self::joined(data, cuts, upto - 1) + data.subrange(
                if upto == 1 {
                    0
                } else {
                    cuts[upto - 2]
                },
                cuts[upto - 1],
            )
        }
    }

    /// The chunks of a stream, one after the other, are the stream.
    pub proof fn lemma_joined(&self, data: Seq<u8>, cuts: Seq<int>, upto: int)
        requires
            self.cuts_ok(data, cuts),
            0 <= upto <= cuts.len(),
        ensures
            Self::joined(data, cuts, upto) == data.subrange(
                0,
                if upto == 0 {
                    0
                } else {
                    cuts[upto - 1]
                },
            ),
            upto == cuts.len() ==> Self::joined(data, cuts, upto) == data,
            upto > 0 ==> 0 < cuts[upto - 1] <= data.len(),
        decreases upto,
    {
        if upto > 0 {
            self.lemma_joined(data, cuts, upto - 1);
            assert(self.cut_ok(data, cuts, upto - 1));
            let prev = if upto == 1 {
                0
            } else {
                cuts[upto - 2]
            };
            assert(Self::joined(data, cuts, upto - 1) == data.subrange(0, prev));
            assert(data.subrange(0, prev) + data.subrange(prev, cuts[upto - 1]) =~= data.subrange(
                0,
                cuts[upto - 1],
            ));
        } else {
            assert(Self::joined(data, cuts, 0) =~= data.subrange(0, 0));
        }
        if upto == cuts.len() {
            if upto > 0 {
                assert(cuts.last() == data.len());
                assert(data.subrange(0, data.len() as int) =~= data);
            } else {
                assert(Self::joined(data, cuts, 0) =~= data);
            }
        }
    }

    /// Where the chunks of `data` end.
    pub fn chunk(&self, data: &[u8]) -> (out: Vec<usize>)
        requires
            self.wf(),
        ensures
            out@.map_values(|c: usize| c as int) == self.cuts(data@, 0),
            self.cuts_ok(data@, out@.map_values(|c: usize| c as int)),
    {
        let n = data.len();
        let mut out: Vec<usize> = Vec::new();
        let mut start: usize = 0;
        let ghost mut done: Seq<int> = Seq::empty();
        while start < n
            invariant
                self.wf(),
                n == data@.len(),
                start <= n,
                done == out@.map_values(|c: usize| c as int),
                self.cuts(data@, 0) == done + self.cuts(data@, start as int),
                forall|k: int| 0 <= k < done.len() ==> self.cut_ok(data@, done, k),
                done.len() > 0 ==> done.last() == start,
                done.len() == 0 ==> start == 0,
            decreases n - start,
        {
            let end = self.cut_from(data, start);
            proof {
                let rest = self.cuts(data@, end as int);
                assert(self.cuts(data@, start as int) == seq![end as int] + rest);
                assert(done + (seq![end as int] + rest) =~= done.push(end as int) + rest);
                let longer = done.push(end as int);
                assert forall|k: int| 0 <= k < longer.len() implies self.cut_ok(
                    data@,
                    longer,
                    k,
                ) by {
                    if k < done.len() {
                        assert(self.cut_ok(data@, done, k));
                        assert(longer[k] == done[k]);
                        if k > 0 {
                            assert(longer[k - 1] == done[k - 1]);
                        }
                    }
                }
            }
            out.push(end);
            proof {
                done = done.push(end as int);
                assert(out@.map_values(|c: usize| c as int) =~= done);
            }
            start = end;
        }
        proof {
            assert(data@.subrange(0, n as int) =~= data@);
            assert(done + Seq::<int>::empty() =~= done);
        }
        out
    }

    /// What holds of cut `k` of `cuts`: it lies beyond the cut before it, by no more than
    /// `max`, and within the data; and unless the data ends there, the chunk has reached
    /// `max` or is longer than `min`.
    pub open spec fn cut_ok(&self, data: Seq<u8>, cuts: Seq<int>, k: int) -> bool {
        let from = if k == 0 {
            0
        } else {
            cuts[k - 1]
        };
        &&& from < cuts[k] <= data.len()
        &&& cuts[k] - from <= self.max
        &&& cuts[k] < data.len() ==> cuts[k] - from > self.min || cuts[k] - from == self.max
    }

    /// What holds of the cuts of a stream: each chunk has at least one byte and at most
    /// `max`, the chunks follow one another, and the last ends where the data ends.
    pub open spec fn cuts_ok(&self, data: Seq<u8>, cuts: Seq<int>) -> bool {
        &&& forall|k: int| 0 <= k < cuts.len() ==> self.cut_ok(data, cuts, k)
        &&& cuts.len() > 0 ==> cuts.last() == data.len()
        &&& cuts.len() == 0 ==> data.len() == 0
    }

    /// The end of the chunk that starts at `start`.
    fn cut_from(&self, data: &[u8], start: usize) -> (end: usize)
        requires
            self.wf(),
            start < data@.len(),
        ensures
            end == self.next_cut(data@, start as int, start + 1),
            start < end <= data@.len(),
            end - start <= self.max,
            end < data@.len() ==> end - start > self.min || end - start == self.max,
    {
        let n = data.len();
        let mut end = start + 1;
        let mut hash: u64 = 0;
        proof {
            self.lemma_next_cut(data@, start as int, start + 1);
        }
        while end < n
            invariant
                self.wf(),
                n == data@.len(),
                start < end <= n,
                end - start <= self.max,
                hash == fingerprint(data@, start + self.min, end as int),
                forall|q: int| start < q < end ==> !self.boundary(data@, start as int, q),
                self.next_cut(data@, start as int, start + 1) == self.next_cut(
                    data@,
                    start as int,
                    end as int,
                ),
            decreases n - end,
        {
            let len = end - start;
            if len >= self.max {
                return end;
            }
            if len > self.min {
                let modulus = if len > self.avg {
                    self.long_modulus
                } else {
                    self.short_modulus
                };
                if hash % modulus == 0 {
                    return end;
                }
            }
            end += 1;
            if end - start > self.min {
                let word = ((((data[end - 1] as u128) + 1) * 0x9E37_79B9_7F4A_7C15u128)
                    % 0x1_0000_0000_0000_0000u128) as u64;
                hash = (((hash as u128) * 2 + (word as u128)) % 0x1_0000_0000_0000_0000u128) as u64;
            }
        }
        end
    }
}

} // verus!
