use crate::bundle::ChunkEntry;
use crate::error::RepositoryError;
use crate::format::{read_u32, read_u64};
use crate::hash;
use vstd::bytes::{
    lemma_auto_spec_u32_to_from_le_bytes, lemma_auto_spec_u64_to_from_le_bytes,
    spec_u32_from_le_bytes, spec_u32_to_le_bytes, spec_u64_from_le_bytes, spec_u64_to_le_bytes,
    u32_to_le_bytes, u64_to_le_bytes,
};
use vstd::prelude::*;

verus! {

/// Position of a chunk: the small id of its bundle and its place in that bundle's chunk list.
#[derive(Clone, Copy, Debug, PartialEq, Eq, Structural)]
pub struct Location {
    pub bundle: u32,
    pub chunk: u32,
}

impl Location {
    /// The location of chunk `chunk` of bundle `bundle`.
    pub fn new(bundle: u32, chunk: u32) -> (loc: Location)
        ensures
            loc.bundle == bundle,
            loc.chunk == chunk,
    {
        Location { bundle, chunk }
    }
}

/// Slot flag: never used since the table was last built.
pub const SLOT_EMPTY: u8 = 0;

/// Slot flag: holds an entry.
pub const SLOT_USED: u8 = 1;

/// Slot flag: held an entry that was deleted; probing goes on past it.
pub const SLOT_DELETED: u8 = 2;

/// Smallest number of slots of a table.
pub const MIN_CAPACITY: usize = 16;

/// Largest number of slots of a table.
pub const MAX_CAPACITY: usize = 0x4000_0000;

/// A number of non-empty slots below which a table always has room: three eighths of the
/// largest capacity.
pub const ROOMY: usize = 0x1800_0000;

/// One slot of the table.
#[derive(Clone, Copy, Debug)]
pub struct Slot {
    pub hash: hash::Hash,
    pub bundle: u32,
    pub chunk: u32,
    pub flags: u8,
}

/// The chunk index: an open-addressed hash table from chunk hash to location. Collisions are
/// resolved by linear probing, at most three quarters of the slots are ever non-empty, and the
/// table is rebuilt with twice the slots when an insertion would exceed that.
pub struct Index {
    slots: Vec<Slot>,
    used: usize,
    filled: usize,
    model: Ghost<Map<hash::Hash, Location>>,
    place: Ghost<Map<hash::Hash, int>>,
    live: Ghost<Set<int>>,
    occupied: Ghost<Set<int>>,
}

/// The slot at which probing for `h` starts in a table of `cap` slots.
pub open spec fn home(h: hash::Hash, cap: int) -> int {
    (h.low as int) % cap
}

/// The slot reached from `from` after `j` probing steps.
pub open spec fn step(from: int, j: int, cap: int) -> int {
    if from + j < cap {
        from + j
    } else {
        from + j - cap
    }
}

/// The number of probing steps that lead from `from` to `to`.
pub open spec fn dist(from: int, to: int, cap: int) -> int {
    if to >= from {
        to - from
    } else {
        to + cap - from
    }
}

/// The index `idx` after the first `upto` chunks of `chunks` were recorded, in their order,
/// as chunks of bundle `bundle`: where a hash occurs twice, the later place stays.
pub open spec fn apply_chunks(
    idx: Map<hash::Hash, Location>,
    chunks: Seq<ChunkEntry>,
    bundle: u32,
    upto: int,
) -> Map<hash::Hash, Location>
    decreases upto,
{
    if upto <= 0 {
        idx
    } else {
        apply_chunks(idx, chunks, bundle, upto - 1).insert(
            chunks[upto - 1].hash,
            Location { bundle, chunk: (upto - 1) as u32 },
        )
    }
}

/// What recording chunks keeps and adds: every hash that was indexed stays indexed, an
/// entry either is as before or points at a recorded chunk with its hash, and every recorded
/// hash points into the bundle.
pub proof fn lemma_apply_chunks(
    idx: Map<hash::Hash, Location>,
    chunks: Seq<ChunkEntry>,
    bundle: u32,
    upto: int,
)
    requires
        0 <= upto <= chunks.len(),
        chunks.len() <= 0xffff_ffff,
    ensures
        forall|h: hash::Hash|
            idx.dom().contains(h) ==> #[trigger] apply_chunks(
                idx,
                chunks,
                bundle,
                upto,
            ).dom().contains(h),
        forall|h: hash::Hash| #[trigger]
            apply_chunks(idx, chunks, bundle, upto).dom().contains(h) ==> {
                let loc = apply_chunks(idx, chunks, bundle, upto)[h];
                ||| idx.dom().contains(h) && loc == idx[h]
                ||| loc.bundle == bundle && loc.chunk < upto && chunks[loc.chunk as int].hash == h
            },
        forall|k: int|
            0 <= k < upto ==> {
                let h = (#[trigger] chunks[k]).hash;
                let m = apply_chunks(idx, chunks, bundle, upto);
                m.dom().contains(h) && m[h].bundle == bundle && k <= m[h].chunk < upto
                    && chunks[m[h].chunk as int].hash == h
            },
    decreases upto,
{
    if upto > 0 {
        lemma_apply_chunks(idx, chunks, bundle, upto - 1);
        let prev = apply_chunks(idx, chunks, bundle, upto - 1);
        let now = apply_chunks(idx, chunks, bundle, upto);
        assert forall|k: int| 0 <= k < upto implies {
            let h = (#[trigger] chunks[k]).hash;
            now.dom().contains(h) && now[h].bundle == bundle && k <= now[h].chunk < upto
                && chunks[now[h].chunk as int].hash == h
        } by {
            let h = chunks[k].hash;
            if h != chunks[upto - 1].hash {
                assert(now[h] == prev[h]);
            }
        }
    }
}

/// Length of the header of an index file: magic bytes, version, entry count, capacity.
pub const INDEX_HEADER_BYTES: usize = 21;

/// Length of one slot in an index file.
pub const SLOT_BYTES: usize = 25;

/// The format version of index files.
pub const INDEX_VERSION: u8 = 1;

/// The four magic bytes at the start of an index file.
pub open spec fn index_magic() -> Seq<u8> {
    seq![0x5au8, 0x56u8, 0x49u8, 0x58u8]
}

/// The 25 bytes of a slot: the hash, the bundle id, the chunk's place, the flags.
pub open spec fn slot_bytes(s: Slot) -> Seq<u8> {
    spec_u64_to_le_bytes(s.hash.high) + spec_u64_to_le_bytes(s.hash.low) + spec_u32_to_le_bytes(
        s.bundle,
    ) + spec_u32_to_le_bytes(s.chunk) + seq![s.flags]
}

/// The slot that 25 bytes spell out.
pub open spec fn parse_slot(b: Seq<u8>) -> Slot {
    Slot {
        hash: hash::Hash {
            high: spec_u64_from_le_bytes(b.subrange(0, 8)),
            low: spec_u64_from_le_bytes(b.subrange(8, 16)),
        },
        bundle: spec_u32_from_le_bytes(b.subrange(16, 20)),
        chunk: spec_u32_from_le_bytes(b.subrange(20, 24)),
        flags: b[24],
    }
}

/// The bytes of the slots, one after the other.
pub open spec fn slots_bytes(slots: Seq<Slot>) -> Seq<u8>
    decreases slots.len(),
{
    if slots.len() == 0 {
        Seq::empty()
    } else {
        slots_bytes(slots.drop_last()) + slot_bytes(slots.last())
    }
}

/// The `n` slots that `b` spells out.
pub open spec fn parse_slots(b: Seq<u8>, n: nat) -> Seq<Slot> {
    Seq::new(n, |k: int| parse_slot(b.subrange(25 * k, 25 * k + 25)))
}

/// The bytes of an index file: magic bytes and version, the number of entries, the number
/// of slots, and the slots.
pub open spec fn index_bytes(slots: Seq<Slot>, entries: nat) -> Seq<u8> {
    index_magic() + seq![INDEX_VERSION] + spec_u64_to_le_bytes(entries as u64)
        + spec_u64_to_le_bytes(slots.len() as u64) + slots_bytes(slots)
}

/// The entries that the first `upto` slots hold.
pub open spec fn slots_map(slots: Seq<Slot>, upto: int) -> Map<hash::Hash, Location>
    decreases upto,
{
    if upto <= 0 {
        Map::empty()
    } else if slots[upto - 1].flags == SLOT_USED {
        slots_map(slots, upto - 1).insert(
            slots[upto - 1].hash,
            Location { bundle: slots[upto - 1].bundle, chunk: slots[upto - 1].chunk },
        )
    } else {
        slots_map(slots, upto - 1)
    }
}

/// Whether the slots can be those of a table: every flag is known, and no hash is used
/// twice.
pub open spec fn slots_valid(slots: Seq<Slot>) -> bool {
    &&& forall|i: int| 0 <= i < slots.len() ==> (#[trigger] slots[i]).flags <= SLOT_DELETED
    &&& forall|i: int, j: int|
        0 <= i < j < slots.len() && (#[trigger] slots[i]).flags == SLOT_USED && (
        #[trigger] slots[j]).flags == SLOT_USED ==> slots[i].hash != slots[j].hash
}

/// What stands in the way of reading `bytes` as an index file, if anything: `IndexCorrupt`
/// for bytes that are too short or do not begin with the magic bytes, `WrongVersion` for an
/// unknown version, `IndexCorrupt` again for a capacity out of range, a length that does
/// not fit it, slots that are not valid, or a wrong entry count.
pub open spec fn index_file_error(bytes: Seq<u8>) -> Option<RepositoryError> {
    if bytes.len() < INDEX_HEADER_BYTES || bytes.subrange(0, 4) != index_magic() {
        Some(RepositoryError::IndexCorrupt)
    } else if bytes[4] != INDEX_VERSION {
        Some(RepositoryError::WrongVersion)
    } else {
        let entries = spec_u64_from_le_bytes(bytes.subrange(5, 13)) as nat;
        let cap = spec_u64_from_le_bytes(bytes.subrange(13, 21)) as nat;
        if cap < MIN_CAPACITY || cap > MAX_CAPACITY || bytes.len() != INDEX_HEADER_BYTES + 25
            * cap || entries * 4 > cap * 3 {
            Some(RepositoryError::IndexCorrupt)
        } else {
            let slots = parse_slots(bytes.subrange(21, bytes.len() as int), cap);
            if !slots_valid(slots) || slots_map(slots, cap as int).dom().len() != entries {
                Some(RepositoryError::IndexCorrupt)
            } else {
                None
            }
        }
    }
}

/// The entries that the index file `bytes` holds.
pub open spec fn index_file_entries(bytes: Seq<u8>) -> Map<hash::Hash, Location> {
    let cap = spec_u64_from_le_bytes(bytes.subrange(13, 21)) as nat;
    slots_map(parse_slots(bytes.subrange(21, bytes.len() as int), cap), cap as int)
}

/// A slot is 25 bytes long, and parsing them gives the slot back.
pub proof fn lemma_slot_round_trip(s: Slot)
    ensures
        slot_bytes(s).len() == 25,
        parse_slot(slot_bytes(s)) == s,
{
    lemma_auto_spec_u32_to_from_le_bytes();
    lemma_auto_spec_u64_to_from_le_bytes();
    let b = slot_bytes(s);
    assert(b.subrange(0, 8) =~= spec_u64_to_le_bytes(s.hash.high));
    assert(b.subrange(8, 16) =~= spec_u64_to_le_bytes(s.hash.low));
    assert(b.subrange(16, 20) =~= spec_u32_to_le_bytes(s.bundle));
    assert(b.subrange(20, 24) =~= spec_u32_to_le_bytes(s.chunk));
}

/// Encoded slots have 25 bytes each, and parsing them gives the slots back.
pub proof fn lemma_slots_round_trip(slots: Seq<Slot>)
    ensures
        slots_bytes(slots).len() == 25 * slots.len(),
        parse_slots(slots_bytes(slots), slots.len()) == slots,
    decreases slots.len(),
{
    if slots.len() == 0 {
        assert(parse_slots(slots_bytes(slots), 0) =~= slots);
    } else {
        let front = slots.drop_last();
        lemma_slots_round_trip(front);
        lemma_slot_round_trip(slots.last());
        let b = slots_bytes(slots);
        let fb = slots_bytes(front);
        assert forall|k: int| 0 <= k < slots.len() implies parse_slots(b, slots.len())[k]
            == slots[k] by {
            if k < front.len() {
                assert(b.subrange(25 * k, 25 * k + 25) =~= fb.subrange(25 * k, 25 * k + 25));
                assert(parse_slots(fb, front.len())[k] == front[k]);
            } else {
                assert(b.subrange(25 * k, 25 * k + 25) =~= slot_bytes(slots.last()));
            }
        }
        assert(parse_slots(b, slots.len()) =~= slots);
    }
}

/// What the map of valid slots holds: the used slots, each under its hash.
pub proof fn lemma_slots_map(slots: Seq<Slot>, upto: int)
    requires
        0 <= upto <= slots.len(),
        slots_valid(slots),
    ensures
        forall|h: hash::Hash| #[trigger]
            slots_map(slots, upto).dom().contains(h) <==> exists|i: int|
                0 <= i < upto && (#[trigger] slots[i]).flags == SLOT_USED && slots[i].hash == h,
        forall|i: int|
            0 <= i < upto && (#[trigger] slots[i]).flags == SLOT_USED ==> slots_map(
                slots,
                upto,
            ).contains_pair(slots[i].hash, Location { bundle: slots[i].bundle, chunk: slots[i].chunk }),
    decreases upto,
{
    if upto > 0 {
        lemma_slots_map(slots, upto - 1);
        let prev = slots_map(slots, upto - 1);
        let now = slots_map(slots, upto);
        assert forall|h: hash::Hash| #[trigger]
            now.dom().contains(h) <==> exists|i: int|
                0 <= i < upto && (#[trigger] slots[i]).flags == SLOT_USED && slots[i].hash == h by {
            if prev.dom().contains(h) {
                let i = choose|i: int|
                    0 <= i < upto - 1 && (#[trigger] slots[i]).flags == SLOT_USED && slots[i].hash
                        == h;
                assert(slots[i].flags == SLOT_USED && slots[i].hash == h);
            }
            if exists|i: int|
                0 <= i < upto && (#[trigger] slots[i]).flags == SLOT_USED && slots[i].hash == h {
                let i = choose|i: int|
                    0 <= i < upto && (#[trigger] slots[i]).flags == SLOT_USED && slots[i].hash == h;
                if i < upto - 1 {
                    assert(prev.dom().contains(h));
                }
            }
            if slots[upto - 1].flags == SLOT_USED && slots[upto - 1].hash == h {
                assert(now.dom().contains(h));
            }
        }
        assert forall|i: int|
            0 <= i < upto && (#[trigger] slots[i]).flags == SLOT_USED implies now.contains_pair(
            slots[i].hash,
            Location { bundle: slots[i].bundle, chunk: slots[i].chunk },
        ) by {
            if i < upto - 1 && slots[upto - 1].flags == SLOT_USED {
                assert(slots[i].hash != slots[upto - 1].hash);
            }
        }
    }
}

/// The map of more slots has no fewer entries.
pub proof fn lemma_slots_map_len(slots: Seq<Slot>, a: int, b: int)
    requires
        0 <= a <= b <= slots.len(),
    ensures
        slots_map(slots, a).dom().finite(),
        slots_map(slots, b).dom().finite(),
        slots_map(slots, a).dom().len() <= slots_map(slots, b).dom().len(),
    decreases b,
{
    if b > 0 {
        if a < b {
            lemma_slots_map_len(slots, a, b - 1);
        } else {
            lemma_slots_map_len(slots, a - 1, b - 1);
        }
        let prev = slots_map(slots, b - 1);
        if slots[b - 1].flags == SLOT_USED {
            assert(slots_map(slots, b).dom() =~= prev.dom().insert(slots[b - 1].hash));
        }
    }
}

impl View for Index {
    type V = Map<hash::Hash, Location>;

    closed spec fn view(&self) -> Map<hash::Hash, Location> {
        self.model@
    }
}

impl Index {
    /// The number of slots.
    pub closed spec fn spec_capacity(&self) -> int {
        self.slots@.len() as int
    }

    /// The number of slots that are not empty.
    pub closed spec fn spec_filled(&self) -> int {
        self.filled as int
    }

    /// The number of slots that held an entry that was deleted.
    pub closed spec fn spec_tombs(&self) -> int {
        self.filled as int - self.used as int
    }

    /// What the invariant says of the load: the slots that are not empty are those of the
    /// entries and those of deleted entries, and they stay below three quarters of the
    /// table.
    pub proof fn lemma_load(&self)
        requires
            self.wf(),
        ensures
            self@.dom().finite(),
            self.spec_filled() == self@.dom().len() + self.spec_tombs(),
            self.spec_tombs() >= 0,
            self.spec_filled() * 4 <= self.spec_capacity() * 3,
    {
        assert forall|i: int| self.live@.contains(i) implies self.occupied@.contains(i) by {}
        vstd::set_lib::lemma_len_subset(self.live@, self.occupied@);
    }

    /// The slots as they lie in the table.
    pub closed spec fn spec_slots(&self) -> Seq<Slot> {
        self.slots@
    }

    /// The table invariant: the entries are exactly the used slots, every entry is reached by
    /// probing from its home slot without crossing an empty slot, and the load stays under the
    /// ceiling.
    pub closed spec fn wf(&self) -> bool {
        let cap = self.slots@.len() as int;
        &&& MIN_CAPACITY <= cap <= MAX_CAPACITY
        &&& self.model@.dom().finite()
        &&& self.live@.finite()
        &&& self.occupied@.finite()
        &&& self.used == self.model@.dom().len()
        &&& self.used == self.live@.len()
        &&& self.filled == self.occupied@.len()
        &&& self.filled * 4 <= cap * 3
        &&& forall|i: int| 0 <= i < cap ==> (#[trigger] self.slots@[i]).flags <= SLOT_DELETED
        &&& forall|i: int| #[trigger]
            self.occupied@.contains(i) ==> 0 <= i < cap && self.slots@[i].flags != SLOT_EMPTY
        &&& forall|i: int|
            0 <= i < cap && (#[trigger] self.slots@[i]).flags != SLOT_EMPTY
                ==> self.occupied@.contains(i)
        &&& forall|i: int| #[trigger]
            self.live@.contains(i) ==> 0 <= i < cap && self.slots@[i].flags == SLOT_USED
        &&& forall|i: int|
            0 <= i < cap && (#[trigger] self.slots@[i]).flags == SLOT_USED ==> self.live@.contains(
                i,
            )
        &&& forall|h: hash::Hash| #[trigger]
            self.model@.dom().contains(h) ==> {
                let p = self.place@[h];
                &&& 0 <= p < cap
                &&& self.slots@[p].flags == SLOT_USED
                &&& self.slots@[p].hash == h
                &&& self.slots@[p].bundle == self.model@[h].bundle
                &&& self.slots@[p].chunk == self.model@[h].chunk
            }
        &&& forall|i: int|
            0 <= i < cap && (#[trigger] self.slots@[i]).flags == SLOT_USED ==> {
                &&& self.model@.dom().contains(self.slots@[i].hash)
                &&& self.place@[self.slots@[i].hash] == i
            }
        &&& forall|h: hash::Hash, j: int|
            self.model@.dom().contains(h) && 0 <= j < dist(home(h, cap), self.place@[h], cap)
                ==> self.slots@[#[trigger] step(home(h, cap), j, cap)].flags != SLOT_EMPTY
    }

    /// An index is finite.
    pub proof fn lemma_finite(&self)
        requires
            self.wf(),
        ensures
            self@.dom().finite(),
            self@.dom().len() <= MAX_CAPACITY,
    {
        vstd::set_lib::lemma_len_subset(self.live@, self.occupied@);
    }

    /// An empty table of `cap` slots.
    fn with_capacity(cap: usize) -> (idx: Index)
        requires
            MIN_CAPACITY <= cap <= MAX_CAPACITY,
        ensures
            idx.wf(),
            idx@ == Map::<hash::Hash, Location>::empty(),
            idx.spec_capacity() == cap,
            idx.spec_filled() == 0,
    {
        let mut slots: Vec<Slot> = Vec::new();
        let mut i: usize = 0;
        while i < cap
            invariant
                i <= cap,
                slots@.len() == i,
                forall|k: int| 0 <= k < i ==> (#[trigger] slots@[k]).flags == SLOT_EMPTY,
            decreases cap - i,
        {
            slots.push(Slot { hash: hash::Hash { high: 0, low: 0 }, bundle: 0, chunk: 0, flags: SLOT_EMPTY });
            i += 1;
        }
        Index {
            slots,
            used: 0,
            filled: 0,
            model: Ghost(Map::empty()),
            place: Ghost(Map::empty()),
            live: Ghost(Set::empty()),
            occupied: Ghost(Set::empty()),
        }
    }

    /// An empty index.
    pub fn new() -> (idx: Index)
        ensures
            idx.wf(),
            idx@ == Map::<hash::Hash, Location>::empty(),
            idx.spec_filled() == 0,
    {
        Index::with_capacity(MIN_CAPACITY)
    }

    /// The number of entries.
    pub fn len(&self) -> (n: usize)
        requires
            self.wf(),
        ensures
            n == self@.dom().len(),
    {
        self.used
    }

    /// The number of slots.
    pub fn capacity(&self) -> (n: usize)
        requires
            self.wf(),
        ensures
            n == self.spec_capacity(),
            MIN_CAPACITY <= n <= MAX_CAPACITY,
    {
        self.slots.len()
    }

    fn home_slot(&self, h: &hash::Hash) -> (p: usize)
        requires
            self.wf(),
        ensures
            p == home(*h, self.slots@.len() as int),
            p < self.slots@.len(),
    {
        let cap = self.slots.len();
        (h.low % (cap as u64)) as usize
    }

    /// The slot that holds `h`, if any.
    fn find(&self, h: &hash::Hash) -> (r: Option<usize>)
        requires
            self.wf(),
        ensures
            match r {
                Some(p) => self.model@.dom().contains(*h) && p == self.place@[*h],
                None => !self.model@.dom().contains(*h),
            },
    {
        let cap = self.slots.len();
        let start = self.home_slot(h);
        let mut i = start;
        let mut n: usize = 0;
        while n < cap
            invariant
                self.wf(),
                cap == self.slots@.len(),
                start == home(*h, cap as int),
                0 <= start < cap,
                n <= cap,
                0 <= i < cap,
                i == step(start as int, n as int, cap as int),
                forall|j: int|
                    0 <= j < n ==> {
                        let s = self.slots@[#[trigger] step(start as int, j, cap as int)];
                        s.flags != SLOT_EMPTY && !(s.flags == SLOT_USED && s.hash == *h)
                    },
            decreases cap - n,
        {
            let s = self.slots[i];
            if s.flags == SLOT_EMPTY {
                proof {
                    if self.model@.dom().contains(*h) {
                        let p = self.place@[*h];
                        let d = dist(start as int, p, cap as int);
                        assert(step(start as int, d, cap as int) == p);
                        if d > n {
                            assert(self.slots@[step(home(*h, cap as int), n as int, cap as int)].flags
                                != SLOT_EMPTY);
                        }
                    }
                }
                return None;
            }
            if s.flags == SLOT_USED && s.hash.high == h.high && s.hash.low == h.low {
                return Some(i);
            }
            i = if i + 1 == cap {
                0
            } else {
                i + 1
            };
            n += 1;
        }
        proof {
            if self.model@.dom().contains(*h) {
                let p = self.place@[*h];
                let d = dist(start as int, p, cap as int);
                assert(step(start as int, d, cap as int) == p);
            }
        }
        None
    }

    /// The location recorded for `h`.
    pub fn get(&self, h: &hash::Hash) -> (r: Option<Location>)
        requires
            self.wf(),
        ensures
            r == (if self@.dom().contains(*h) {
                Some(self@[*h])
            } else {
                None
            }),
    {
        match self.find(h) {
            Some(p) => {
                let s = self.slots[p];
                Some(Location { bundle: s.bundle, chunk: s.chunk })
            },
            None => None,
        }
    }

    /// Whether `h` is indexed.
    pub fn contains(&self, h: &hash::Hash) -> (r: bool)
        requires
            self.wf(),
        ensures
            r == self@.dom().contains(*h),
    {
        self.find(h).is_some()
    }

    /// Puts an entry for a hash that is not indexed into the first free slot on its probe path.
    fn insert_fresh(&mut self, h: hash::Hash, loc: Location)
        requires
            old(self).wf(),
            !old(self)@.dom().contains(h),
            (old(self).spec_filled() + 1) * 4 <= old(self).spec_capacity() * 3,
        ensures
            final(self).wf(),
            final(self)@ == old(self)@.insert(h, loc),
            final(self).spec_capacity() == old(self).spec_capacity(),
            final(self).spec_filled() <= old(self).spec_filled() + 1,
            final(self).spec_tombs() <= old(self).spec_tombs(),
    {
        let cap = self.slots.len();
        let start = self.home_slot(&h);
        let mut i = start;
        let mut n: usize = 0;
        while n < cap && self.slots[i].flags == SLOT_USED
            invariant
                self.wf(),
                cap == self.slots@.len(),
                0 <= start < cap,
                n <= cap,
                0 <= i < cap,
                i == step(start as int, n as int, cap as int),
                forall|j: int|
                    0 <= j < n ==> self.slots@[#[trigger] step(start as int, j, cap as int)].flags
                        == SLOT_USED,
            decreases cap - n,
        {
            i = if i + 1 == cap {
                0
            } else {
                i + 1
            };
            n += 1;
        }
        proof {
            if n == cap {
                assert forall|p: int| 0 <= p < cap implies self.occupied@.contains(p) by {
                    let d = dist(start as int, p, cap as int);
                    assert(step(start as int, d, cap as int) == p);
                }
                assert(self.occupied@ =~= vstd::set_lib::set_int_range(0, cap as int));
                vstd::set_lib::lemma_int_range(0, cap as int);
                assert(false);
            }
            vstd::set_lib::lemma_len_subset(self.live@, self.occupied@);
        }
        let was_empty = self.slots[i].flags == SLOT_EMPTY;
        let ghost before = *self;
        self.slots.set(i, Slot { hash: h, bundle: loc.bundle, chunk: loc.chunk, flags: SLOT_USED });
        self.used = self.used + 1;
        if was_empty {
            self.filled = self.filled + 1;
        }
        proof {
            self.model = Ghost(before.model@.insert(h, loc));
            self.place = Ghost(before.place@.insert(h, i as int));
            self.live = Ghost(before.live@.insert(i as int));
            self.occupied = Ghost(before.occupied@.insert(i as int));
            assert forall|g: hash::Hash, j: int|
                self.model@.dom().contains(g) && 0 <= j < dist(
                    home(g, cap as int),
                    self.place@[g],
                    cap as int,
                ) implies self.slots@[#[trigger] step(home(g, cap as int), j, cap as int)].flags
                != SLOT_EMPTY by {
                let q = step(home(g, cap as int), j, cap as int);
                if g == h {
                    assert(before.slots@[step(start as int, j, cap as int)].flags == SLOT_USED);
                } else {
                    assert(before.slots@[step(home(g, cap as int), j, cap as int)].flags
                        != SLOT_EMPTY);
                }
            }
        }
    }

    /// A table of `new_cap` slots with the same entries and no deleted slots.
    fn rebuilt(&self, new_cap: usize) -> (idx: Index)
        requires
            self.wf(),
            self.spec_capacity() * 2 <= new_cap <= MAX_CAPACITY,
        ensures
            idx.wf(),
            idx@ == self@,
            idx.spec_capacity() == new_cap,
            (idx.spec_filled() + 1) * 4 <= idx.spec_capacity() * 3,
            idx.spec_filled() <= self.spec_filled(),
    {
        let mut idx = Index::with_capacity(new_cap);
        let cap = self.slots.len();
        let mut i: usize = 0;
        while i < cap
            invariant
                self.wf(),
                idx.wf(),
                cap == self.slots@.len(),
                i <= cap,
                cap * 2 <= new_cap,
                idx.spec_capacity() == new_cap,
                idx.spec_filled() <= i,
                idx.spec_filled() <= idx.model@.dom().len(),
                forall|h: hash::Hash|
                    idx.model@.dom().contains(h) <==> (self.model@.dom().contains(h)
                        && self.place@[h] < i),
                forall|h: hash::Hash| #[trigger]
                    idx.model@.dom().contains(h) ==> idx.model@[h] == self.model@[h],
            decreases cap - i,
        {
            let s = self.slots[i];
            if s.flags == SLOT_USED {
                idx.insert_fresh(s.hash, Location { bundle: s.bundle, chunk: s.chunk });
            }
            i += 1;
        }
        assert(idx.model@ =~= self.model@);
        proof {
            vstd::set_lib::lemma_len_subset(self.live@, self.occupied@);
        }
        idx
    }

    /// Makes room for one more entry, doubling the table if the load ceiling would be exceeded.
    /// Returns false, and changes nothing, if the table cannot grow any further.
    fn reserve(&mut self) -> (ok: bool)
        requires
            old(self).wf(),
        ensures
            final(self).wf(),
            final(self)@ == old(self)@,
            ok ==> (final(self).spec_filled() + 1) * 4 <= final(self).spec_capacity() * 3,
            !ok ==> *final(self) == *old(self),
            ok <==> ((old(self).spec_filled() + 1) * 4 <= old(self).spec_capacity() * 3
                || old(self).spec_capacity() * 2 <= MAX_CAPACITY),
            final(self).spec_filled() <= old(self).spec_filled(),
            final(self).spec_tombs() <= old(self).spec_tombs(),
            final(self).spec_capacity() >= old(self).spec_capacity(),
    {
        let cap = self.slots.len();
        proof {
            vstd::set_lib::lemma_int_range(0, cap as int);
            vstd::set_lib::lemma_len_subset(
                self.occupied@,
                vstd::set_lib::set_int_range(0, cap as int),
            );
        }
        if (self.filled + 1) * 4 <= cap * 3 {
            return true;
        }
        if cap > MAX_CAPACITY / 2 {
            return false;
        }
        let bigger = self.rebuilt(cap * 2);
        *self = bigger;
        true
    }

    /// A table with fewer than `ROOMY` slots that are not empty has room for a new hash.
    pub proof fn lemma_roomy(&self)
        requires
            self.wf(),
            self.spec_filled() < ROOMY,
        ensures
            self.has_room(),
    {
    }

    /// Whether an entry for a new hash can still be added.
    pub open spec fn has_room(&self) -> bool {
        (self.spec_filled() + 1) * 4 <= self.spec_capacity() * 3 || self.spec_capacity() * 2
            <= MAX_CAPACITY
    }

    /// Records `loc` for `h`, replacing an earlier location. Fails, and changes nothing, only
    /// if `h` is new and the table can neither take it nor grow.
    pub fn set(&mut self, h: &hash::Hash, loc: &Location) -> (ok: bool)
        requires
            old(self).wf(),
        ensures
            final(self).wf(),
            ok <==> (old(self)@.dom().contains(*h) || old(self).has_room()),
            ok ==> final(self)@ == old(self)@.insert(*h, *loc),
            !ok ==> *final(self) == *old(self),
            final(self).spec_filled() <= old(self).spec_filled() + 1,
            final(self).spec_tombs() <= old(self).spec_tombs(),
            final(self).spec_capacity() >= old(self).spec_capacity(),
    {
        match self.find(h) {
            Some(p) => {
                let s = self.slots[p];
                let ghost before = *self;
                self.slots.set(
                    p,
                    Slot { hash: s.hash, bundle: loc.bundle, chunk: loc.chunk, flags: SLOT_USED },
                );
                proof {
                    self.model = Ghost(before.model@.insert(*h, *loc));
                    let cap = self.slots@.len() as int;
                    assert(before.model@.dom().insert(*h) =~= before.model@.dom());
                    assert forall|g: hash::Hash, j: int|
                        self.model@.dom().contains(g) && 0 <= j < dist(
                            home(g, cap),
                            self.place@[g],
                            cap,
                        ) implies self.slots@[#[trigger] step(home(g, cap), j, cap)].flags
                        != SLOT_EMPTY by {
                        assert(before.slots@[step(home(g, cap), j, cap)].flags != SLOT_EMPTY);
                    }
                }
                true
            },
            None => {
                if !self.reserve() {
                    return false;
                }
                self.insert_fresh(*h, *loc);
                true
            },
        }
    }

    /// Forgets `h`. Returns whether it was indexed.
    pub fn delete(&mut self, h: &hash::Hash) -> (was: bool)
        requires
            old(self).wf(),
        ensures
            final(self).wf(),
            was == old(self)@.dom().contains(*h),
            final(self)@ == old(self)@.remove(*h),
            final(self).spec_filled() == old(self).spec_filled(),
    {
        match self.find(h) {
            Some(p) => {
                self.mark_deleted(p);
                true
            },
            None => {
                assert(self.model@.remove(*h) =~= self.model@);
                false
            },
        }
    }

    /// Turns the used slot `p` into a deleted one.
    fn mark_deleted(&mut self, p: usize)
        requires
            old(self).wf(),
            p < old(self).slots@.len(),
            old(self).slots@[p as int].flags == SLOT_USED,
        ensures
            final(self).wf(),
            final(self)@ == old(self)@.remove(old(self).slots@[p as int].hash),
            final(self).place@ == old(self).place@,
            final(self).slots@.len() == old(self).slots@.len(),
            forall|i: int|
                0 <= i < old(self).slots@.len() && i != p ==> final(self).slots@[i] == old(self).slots@[i],
            final(self).slots@[p as int].flags == SLOT_DELETED,
            final(self).spec_filled() == old(self).spec_filled(),
    {
        let s = self.slots[p];
        let ghost before = *self;
        self.slots.set(
            p,
            Slot { hash: s.hash, bundle: s.bundle, chunk: s.chunk, flags: SLOT_DELETED },
        );
        proof {
            assert(before.live@.contains(p as int));
            assert(before.model@.dom().contains(s.hash));
        }
        self.used = self.used - 1;
        proof {
            self.model = Ghost(before.model@.remove(s.hash));
            self.live = Ghost(before.live@.remove(p as int));
            let cap = self.slots@.len() as int;
            assert forall|g: hash::Hash, j: int|
                self.model@.dom().contains(g) && 0 <= j < dist(
                    home(g, cap),
                    self.place@[g],
                    cap,
                ) implies self.slots@[#[trigger] step(home(g, cap), j, cap)].flags
                != SLOT_EMPTY by {
                assert(before.slots@[step(home(g, cap), j, cap)].flags != SLOT_EMPTY);
            }
        }
    }

    /// Forgets every entry that points into bundle `bundle`.
    pub fn remove_bundle(&mut self, bundle: u32)
        requires
            old(self).wf(),
        ensures
            final(self).wf(),
            final(self)@ == old(self)@.restrict(
                Set::new(|h: hash::Hash| old(self)@.dom().contains(h) && old(self)@[h].bundle != bundle),
            ),
            final(self).spec_filled() == old(self).spec_filled(),
    {
        let cap = self.slots.len();
        let ghost before = *self;
        let mut i: usize = 0;
        while i < cap
            invariant
                before.wf(),
                self.wf(),
                cap == self.slots@.len(),
                cap == before.slots@.len(),
                i <= cap,
                self.spec_filled() == before.spec_filled(),
                self.place@ == before.place@,
                forall|k: int| i <= k < cap ==> self.slots@[k] == before.slots@[k],
                forall|h: hash::Hash| #[trigger]
                    self.model@.dom().contains(h) ==> before.model@.dom().contains(h) && !(
                    before.place@[h] < i && before.model@[h].bundle == bundle),
                forall|h: hash::Hash| #[trigger]
                    before.model@.dom().contains(h) && !(before.place@[h] < i
                        && before.model@[h].bundle == bundle) ==> self.model@.dom().contains(h),
                forall|h: hash::Hash| #[trigger]
                    self.model@.dom().contains(h) ==> self.model@[h] == before.model@[h],
            decreases cap - i,
        {
            let s = self.slots[i];
            let ghost prev = self.model@;
            assert(s == before.slots@[i as int]);
            if s.flags == SLOT_USED && s.bundle == bundle {
                self.mark_deleted(i);
            }
            proof {
                assert forall|h: hash::Hash|
                    self.model@.dom().contains(h) <==> (before.model@.dom().contains(h) && !(
                    before.place@[h] < i + 1 && before.model@[h].bundle == bundle)) by {
                    if before.model@.dom().contains(h) {
                        assert(before.slots@[before.place@[h]].hash == h);
                        if before.place@[h] == i {
                            assert(s.hash == h);
                            assert(s.bundle == before.model@[h].bundle);
                        }
                    }
                    if prev.dom().contains(h) {
                        assert(before.model@.dom().contains(h));
                    }
                }
            }
            i += 1;
        }
        assert(self.model@ =~= before.model@.restrict(
            Set::new(|h: hash::Hash| before.model@.dom().contains(h) && before.model@[h].bundle != bundle),
        ));
    }

    /// Forgets every entry that `keep` does not want kept: it is asked once for every entry,
    /// and the entries for which it says no are deleted.
    pub fn filter(&mut self, keep: impl Fn(hash::Hash, Location) -> bool)
        requires
            old(self).wf(),
            forall|h: hash::Hash, loc: Location| call_requires(keep, (h, loc)),
        ensures
            final(self).wf(),
            forall|h: hash::Hash| #[trigger]
                final(self)@.dom().contains(h) ==> old(self)@.dom().contains(h) && final(self)@[h]
                    == old(self)@[h] && call_ensures(keep, (h, old(self)@[h]), true),
            forall|h: hash::Hash| #[trigger]
                old(self)@.dom().contains(h) && !final(self)@.dom().contains(h) ==> call_ensures(
                    keep,
                    (h, old(self)@[h]),
                    false,
                ),
            final(self).spec_filled() == old(self).spec_filled(),
            final(self).spec_capacity() == old(self).spec_capacity(),
    {
        let cap = self.slots.len();
        let ghost before = *self;
        let mut i: usize = 0;
        while i < cap
            invariant
                before.wf(),
                self.wf(),
                cap == self.slots@.len(),
                cap == before.slots@.len(),
                i <= cap,
                self.spec_filled() == before.spec_filled(),
                self.place@ == before.place@,
                forall|h: hash::Hash, loc: Location| call_requires(keep, (h, loc)),
                forall|k: int| i <= k < cap ==> self.slots@[k] == before.slots@[k],
                forall|h: hash::Hash| #[trigger]
                    self.model@.dom().contains(h) ==> before.model@.dom().contains(h)
                        && self.model@[h] == before.model@[h] && (before.place@[h] < i
                        ==> call_ensures(keep, (h, before.model@[h]), true)),
                forall|h: hash::Hash| #[trigger]
                    before.model@.dom().contains(h) && !self.model@.dom().contains(h)
                        ==> call_ensures(keep, (h, before.model@[h]), false),
            decreases cap - i,
        {
            let s = self.slots[i];
            let ghost prev = self.model@;
            assert(s == before.slots@[i as int]);
            if s.flags == SLOT_USED {
                proof {
                    assert(before.live@.contains(i as int));
                    assert(self.live@.contains(i as int));
                    assert(self.model@.dom().contains(s.hash));
                    assert(self.place@[s.hash] == i);
                    assert(before.model@[s.hash] == Location { bundle: s.bundle, chunk: s.chunk });
                }
                let wanted = keep(s.hash, Location { bundle: s.bundle, chunk: s.chunk });
                if !wanted {
                    self.mark_deleted(i);
                }
                proof {
                    assert forall|h: hash::Hash| #[trigger]
                        self.model@.dom().contains(h) implies before.model@.dom().contains(h)
                        && self.model@[h] == before.model@[h] && (before.place@[h] < i + 1
                        ==> call_ensures(keep, (h, before.model@[h]), true)) by {
                        assert(prev.dom().contains(h));
                        if before.place@[h] == i {
                            assert(before.slots@[before.place@[h]].hash == h);
                            assert(h == s.hash);
                        }
                    }
                    assert forall|h: hash::Hash| #[trigger]
                        before.model@.dom().contains(h) && !self.model@.dom().contains(
                            h,
                        ) implies call_ensures(keep, (h, before.model@[h]), false) by {
                        if prev.dom().contains(h) {
                            assert(h == s.hash);
                        }
                    }
                }
            } else {
                proof {
                    assert forall|h: hash::Hash| #[trigger]
                        self.model@.dom().contains(h) implies before.place@[h] != i by {
                        assert(self.slots@[self.place@[h]].flags == SLOT_USED);
                    }
                }
            }
            i += 1;
        }
    }

    /// Records the chunks of `chunks`, in their order, as chunks of bundle `bundle`. Stops
    /// at the first hash for which the table has no room, and returns how many chunks were
    /// recorded.
    pub fn set_chunks(&mut self, chunks: &Vec<ChunkEntry>, bundle: u32) -> (done: usize)
        requires
            old(self).wf(),
            chunks@.len() <= 0xffff_ffff,
        ensures
            final(self).wf(),
            done <= chunks@.len(),
            final(self)@ == apply_chunks(old(self)@, chunks@, bundle, done as int),
            done < chunks@.len() ==> !final(self)@.dom().contains(chunks@[done as int].hash)
                && !final(self).has_room(),
            final(self).spec_filled() <= old(self).spec_filled() + done,
            final(self).spec_tombs() <= old(self).spec_tombs(),
            final(self).spec_capacity() >= old(self).spec_capacity(),
    {
        let mut i: usize = 0;
        while i < chunks.len()
            invariant
                self.wf(),
                self.spec_tombs() <= old(self).spec_tombs(),
                self.spec_capacity() >= old(self).spec_capacity(),
                self.spec_filled() <= old(self).spec_filled() + i,
                i <= chunks@.len() <= 0xffff_ffff,
                self@ == apply_chunks(old(self)@, chunks@, bundle, i as int),
            decreases chunks@.len() - i,
        {
            let loc = Location { bundle, chunk: i as u32 };
            if !self.set(&chunks[i].hash, &loc) {
                return i;
            }
            i += 1;
        }
        i
    }

    /// Forgets every entry. The table keeps its size, so what it held fits again.
    pub fn clear(&mut self)
        ensures
            final(self).wf(),
            final(self)@ == Map::<hash::Hash, Location>::empty(),
            final(self).spec_filled() == 0,
            final(self).spec_tombs() == 0,
            old(self).wf() ==> final(self).spec_capacity() == old(self).spec_capacity(),
    {
        let cap = self.slots.len();
        if MIN_CAPACITY <= cap && cap <= MAX_CAPACITY {
            *self = Index::with_capacity(cap);
        } else {
            *self = Index::with_capacity(MIN_CAPACITY);
        }
        assert(self.model@.dom().len() == 0);
    }

    /// The slots of a table are valid and hold its entries.
    pub proof fn lemma_slots(&self)
        requires
            self.wf(),
        ensures
            slots_valid(self.spec_slots()),
            slots_map(self.spec_slots(), self.spec_slots().len() as int) == self@,
            MIN_CAPACITY <= self.spec_slots().len() <= MAX_CAPACITY,
            self.spec_slots().len() == self.spec_capacity(),
            self@.dom().finite(),
    {
        let slots = self.slots@;
        assert forall|i: int, j: int|
            0 <= i < j < slots.len() && (#[trigger] slots[i]).flags == SLOT_USED && (
            #[trigger] slots[j]).flags == SLOT_USED implies slots[i].hash != slots[j].hash by {
            assert(self.place@[slots[i].hash] == i);
            assert(self.place@[slots[j].hash] == j);
        }
        lemma_slots_map(slots, slots.len() as int);
        let m = slots_map(slots, slots.len() as int);
        assert forall|h: hash::Hash| m.dom().contains(h) <==> self.model@.dom().contains(h) by {
            if m.dom().contains(h) {
                let i = choose|i: int|
                    0 <= i < slots.len() && (#[trigger] slots[i]).flags == SLOT_USED
                        && slots[i].hash == h;
                assert(self.model@.dom().contains(slots[i].hash));
            }
            if self.model@.dom().contains(h) {
                let p = self.place@[h];
                assert(slots[p].flags == SLOT_USED && slots[p].hash == h);
            }
        }
        assert forall|h: hash::Hash| m.dom().contains(h) implies m[h] == self.model@[h] by {
            let p = self.place@[h];
            assert(slots[p].flags == SLOT_USED && slots[p].hash == h);
            assert(m.contains_pair(
                slots[p].hash,
                Location { bundle: slots[p].bundle, chunk: slots[p].chunk },
            ));
        }
        assert(m =~= self.model@);
    }

    /// The bytes of the index file of a table can be read, and hold the table's entries.
    pub proof fn lemma_file_round_trip(&self)
        requires
            self.wf(),
        ensures
            index_file_error(index_bytes(self.spec_slots(), self@.dom().len())) is None,
            index_file_entries(index_bytes(self.spec_slots(), self@.dom().len())) == self@,
    {
        self.lemma_slots();
        self.lemma_finite();
        vstd::set_lib::lemma_len_subset(self.live@, self.occupied@);
        let slots = self.slots@;
        let n = self@.dom().len();
        let bytes = index_bytes(slots, n);
        lemma_auto_spec_u64_to_from_le_bytes();
        lemma_slots_round_trip(slots);
        assert(bytes.subrange(0, 4) =~= index_magic());
        assert(bytes[4] == INDEX_VERSION);
        assert(bytes.subrange(5, 13) =~= spec_u64_to_le_bytes(n as u64));
        assert(bytes.subrange(13, 21) =~= spec_u64_to_le_bytes(slots.len() as u64));
        assert(bytes.subrange(21, bytes.len() as int) =~= slots_bytes(slots));
    }

    /// Writes the table out as an index file.
    pub fn to_bytes(&self) -> (out: Vec<u8>)
        requires
            self.wf(),
        ensures
            out@ == index_bytes(self.spec_slots(), self@.dom().len()),
    {
        let mut out: Vec<u8> = Vec::new();
        out.push(0x5au8);
        out.push(0x56u8);
        out.push(0x49u8);
        out.push(0x58u8);
        out.push(INDEX_VERSION);
        assert(out@ =~= index_magic() + seq![INDEX_VERSION]);
        append_bytes(&mut out, &u64_to_le_bytes(self.used as u64));
        append_bytes(&mut out, &u64_to_le_bytes(self.slots.len() as u64));
        let ghost head = out@;
        let mut i: usize = 0;
        while i < self.slots.len()
            invariant
                i <= self.slots@.len(),
                out@ == head + slots_bytes(self.slots@.subrange(0, i as int)),
            decreases self.slots@.len() - i,
        {
            let s = self.slots[i];
            let ghost before = out@;
            append_bytes(&mut out, &u64_to_le_bytes(s.hash.high));
            append_bytes(&mut out, &u64_to_le_bytes(s.hash.low));
            append_bytes(&mut out, &u32_to_le_bytes(s.bundle));
            append_bytes(&mut out, &u32_to_le_bytes(s.chunk));
            out.push(s.flags);
            proof {
                assert(self.slots@.subrange(0, i + 1).drop_last() =~= self.slots@.subrange(
                    0,
                    i as int,
                ));
                assert(out@ =~= before + slot_bytes(s));
                assert(out@ =~= head + slots_bytes(self.slots@.subrange(0, i + 1)));
            }
            i += 1;
        }
        assert(self.slots@.subrange(0, self.slots@.len() as int) =~= self.slots@);
        out
    }

    /// Reads an index file. The outcome is an error exactly where `index_file_error` names
    /// one; else the table holds the entries of the file.
    pub fn from_bytes(bytes: &Vec<u8>) -> (r: Result<Index, RepositoryError>)
        ensures
            match r {
                Ok(idx) => index_file_error(bytes@) is None && idx.wf() && idx@
                    == index_file_entries(bytes@),
                Err(e) => index_file_error(bytes@) == Some(e),
            },
    {
        let n = bytes.len();
        if n < INDEX_HEADER_BYTES {
            return Err(RepositoryError::IndexCorrupt);
        }
        if bytes[0] != 0x5a || bytes[1] != 0x56 || bytes[2] != 0x49 || bytes[3] != 0x58 {
            assert(bytes@.subrange(0, 4)[0] == bytes@[0]);
            assert(bytes@.subrange(0, 4)[1] == bytes@[1]);
            assert(bytes@.subrange(0, 4)[2] == bytes@[2]);
            assert(bytes@.subrange(0, 4)[3] == bytes@[3]);
            return Err(RepositoryError::IndexCorrupt);
        }
        assert(bytes@.subrange(0, 4) =~= index_magic());
        if bytes[4] != INDEX_VERSION {
            return Err(RepositoryError::WrongVersion);
        }
        let entries = read_u64(bytes, 5);
        let cap64 = read_u64(bytes, 13);
        if cap64 < MIN_CAPACITY as u64 || cap64 > MAX_CAPACITY as u64 {
            return Err(RepositoryError::IndexCorrupt);
        }
        let cap = cap64 as usize;
        if (n - INDEX_HEADER_BYTES) / SLOT_BYTES != cap || (n - INDEX_HEADER_BYTES) % SLOT_BYTES
            != 0 {
            return Err(RepositoryError::IndexCorrupt);
        }
        if entries > cap64 || entries * 4 > cap64 * 3 {
            return Err(RepositoryError::IndexCorrupt);
        }
        let ghost body = bytes@.subrange(21, n as int);
        let ghost slots = parse_slots(body, cap as nat);
        let mut idx = Index::with_capacity(cap);
        let mut k: usize = 0;
        while k < cap
            invariant
                k <= cap,
                n == bytes@.len(),
                n == INDEX_HEADER_BYTES + SLOT_BYTES * cap,
                MIN_CAPACITY <= cap <= MAX_CAPACITY,
                body == bytes@.subrange(21, n as int),
                slots == parse_slots(body, cap as nat),
                idx.wf(),
                idx@ == slots_map(slots, k as int),
                idx.spec_capacity() == cap,
                idx.spec_filled() <= idx@.dom().len(),
                slots_valid(slots.subrange(0, k as int)),
                bytes@.subrange(0, 4) == index_magic(),
                bytes@[4] == INDEX_VERSION,
                entries == spec_u64_from_le_bytes(bytes@.subrange(5, 13)),
                cap == spec_u64_from_le_bytes(bytes@.subrange(13, 21)),
                cap64 == cap,
                entries * 4 <= cap * 3,
            decreases cap - k,
        {
            let at = INDEX_HEADER_BYTES + SLOT_BYTES * k;
            let high = read_u64(bytes, at);
            let low = read_u64(bytes, at + 8);
            let bundle = read_u32(bytes, at + 16);
            let chunk = read_u32(bytes, at + 20);
            let flags = bytes[at + 24];
            proof {
                let e = body.subrange(25 * k, 25 * k + 25);
                assert(e.subrange(0, 8) =~= bytes@.subrange(at as int, at + 8));
                assert(e.subrange(8, 16) =~= bytes@.subrange(at + 8, at + 16));
                assert(e.subrange(16, 20) =~= bytes@.subrange(at + 16, at + 20));
                assert(e.subrange(20, 24) =~= bytes@.subrange(at + 20, at + 24));
                assert(e[24] == bytes@[at + 24]);
                assert(slots[k as int] == Slot {
                    hash: hash::Hash { high, low },
                    bundle,
                    chunk,
                    flags,
                });
                lemma_slots_map(slots.subrange(0, k as int), k as int);
                Self::lemma_slots_map_prefix(slots, k as int, k as int);
            }
            let ghost prefix = slots.subrange(0, k as int);
            let ghost next = slots.subrange(0, k + 1);
            if flags > SLOT_DELETED {
                proof {
                    assert(slots[k as int].flags > SLOT_DELETED);
                }
                return Err(RepositoryError::IndexCorrupt);
            }
            if flags == SLOT_USED {
                let h = hash::Hash { high, low };
                if idx.contains(&h) {
                    proof {
                        let i = choose|i: int|
                            0 <= i < k && (#[trigger] prefix[i]).flags == SLOT_USED
                                && prefix[i].hash == h;
                        assert(slots[i].flags == SLOT_USED && slots[i].hash == slots[k as int].hash);
                    }
                    return Err(RepositoryError::IndexCorrupt);
                }
                proof {
                    idx.lemma_finite();
                }
                if ((idx.used as u64) + 1) * 4 > cap64 * 3 {
                    proof {
                        lemma_slots_map_len(slots, k + 1, cap as int);
                    }
                    return Err(RepositoryError::IndexCorrupt);
                }
                idx.insert_fresh(h, Location { bundle, chunk });
            }
            proof {
                assert forall|i: int| 0 <= i < next.len() implies (#[trigger] next[i]).flags
                    <= SLOT_DELETED by {
                    if i < k {
                        assert(prefix[i].flags <= SLOT_DELETED);
                    }
                }
                assert forall|i: int, j: int|
                    0 <= i < j < next.len() && (#[trigger] next[i]).flags == SLOT_USED && (
                    #[trigger] next[j]).flags == SLOT_USED implies next[i].hash != next[j].hash by {
                    if j < k {
                        assert(prefix[i].hash != prefix[j].hash);
                    } else {
                        assert(prefix[i].flags == SLOT_USED);
                    }
                }
            }
            k += 1;
        }
        proof {
            assert(slots.subrange(0, cap as int) =~= slots);
            idx.lemma_finite();
        }
        if idx.used as u64 != entries {
            return Err(RepositoryError::IndexCorrupt);
        }
        Ok(idx)
    }

    /// The map of a prefix of the slots is the map of as many of the slots.
    proof fn lemma_slots_map_prefix(slots: Seq<Slot>, len: int, upto: int)
        requires
            0 <= upto <= len <= slots.len(),
        ensures
            slots_map(slots.subrange(0, len), upto) == slots_map(slots, upto),
        decreases upto,
    {
        if upto > 0 {
            Self::lemma_slots_map_prefix(slots, len, upto - 1);
        }
    }

    /// The entries, each hash once, in slot order.
    pub fn entries(&self) -> (out: Vec<(hash::Hash, Location)>)
        requires
            self.wf(),
        ensures
            forall|k: int|
                0 <= k < out@.len() ==> self@.contains_pair((#[trigger] out@[k]).0, out@[k].1),
            forall|h: hash::Hash|
                self@.dom().contains(h) ==> exists|k: int|
                    0 <= k < out@.len() && (#[trigger] out@[k]).0 == h,
            forall|j: int, k: int|
                0 <= j < k < out@.len() ==> (#[trigger] out@[j]).0 != (#[trigger] out@[k]).0,
    {
        let cap = self.slots.len();
        let mut out: Vec<(hash::Hash, Location)> = Vec::new();
        let mut i: usize = 0;
        while i < cap
            invariant
                self.wf(),
                cap == self.slots@.len(),
                i <= cap,
                forall|k: int|
                    0 <= k < out@.len() ==> {
                        &&& self.model@.contains_pair((#[trigger] out@[k]).0, out@[k].1)
                        &&& self.place@[out@[k].0] < i
                    },
                forall|h: hash::Hash|
                    self.model@.dom().contains(h) && self.place@[h] < i ==> exists|k: int|
                        0 <= k < out@.len() && (#[trigger] out@[k]).0 == h,
                forall|j: int, k: int|
                    0 <= j < k < out@.len() ==> (#[trigger] out@[j]).0 != (#[trigger] out@[k]).0,
            decreases cap - i,
        {
            let s = self.slots[i];
            if s.flags == SLOT_USED {
                let ghost prev = out@;
                out.push((s.hash, Location { bundle: s.bundle, chunk: s.chunk }));
                proof {
                    assert forall|h: hash::Hash|
                        self.model@.dom().contains(h) && self.place@[h] < i + 1 implies exists|
                        k: int,
                    | 0 <= k < out@.len() && (#[trigger] out@[k]).0 == h by {
                        if self.place@[h] < i {
                            let k = choose|k: int| 0 <= k < prev.len() && (#[trigger] prev[k]).0 == h;
                            assert(out@[k].0 == h);
                        } else {
                            assert(out@[prev.len() as int].0 == h);
                        }
                    }
                }
            }
            i += 1;
        }
        out
    }
}

/// Appends `bytes` to `out`.
fn append_bytes(out: &mut Vec<u8>, bytes: &Vec<u8>)
    ensures
        final(out)@ == old(out)@ + bytes@,
{
    let mut i: usize = 0;
    while i < bytes.len()
        invariant
            i <= bytes@.len(),
            out@ == old(out)@ + bytes@.subrange(0, i as int),
        decreases bytes@.len() - i,
    {
        out.push(bytes[i]);
        assert(out@ =~= old(out)@ + bytes@.subrange(0, i + 1));
        i += 1;
    }
    assert(bytes@.subrange(0, bytes@.len() as int) =~= bytes@);
}

} // verus!
