use crate::format::{read_u32, read_u64};
use crate::hash;
use vstd::bytes::{
    lemma_auto_spec_u32_to_from_le_bytes, lemma_auto_spec_u64_to_from_le_bytes,
    spec_u32_from_le_bytes, spec_u32_to_le_bytes, spec_u64_from_le_bytes, spec_u64_to_le_bytes,
    u32_to_le_bytes, u64_to_le_bytes,
};
use vstd::prelude::*;

verus! {

/// The content-id of a bundle: the fingerprint of its canonical bytes, and its durable name.
#[derive(Clone, Copy, Debug, PartialEq, Eq, Structural)]
pub struct BundleId {
    pub hash: hash::Hash,
}

/// One row of the bundle map: a small bundle id and the content-id it stands for.
#[derive(Clone, Copy, Debug, PartialEq, Eq, Structural)]
pub struct MapEntry {
    pub id: u32,
    pub bundle: BundleId,
}

/// The bundle map: an injective table from small bundle ids, which the index stores, to
/// content-ids, which name the bundles on the remote.
pub struct BundleMap {
    entries: Vec<MapEntry>,
    model: Ghost<Map<u32, BundleId>>,
    row: Ghost<Map<u32, int>>,
}

impl View for BundleMap {
    type V = Map<u32, BundleId>;

    closed spec fn view(&self) -> Map<u32, BundleId> {
        self.model@
    }
}

/// Whether no small id and no content-id occurs twice among `rows`.
pub open spec fn rows_injective(rows: Seq<MapEntry>) -> bool {
    forall|j: int, k: int|
        0 <= j < k < rows.len() ==> (#[trigger] rows[j]).id != (#[trigger] rows[k]).id
            && rows[j].bundle != rows[k].bundle
}

/// The table that `rows` spell out.
pub open spec fn rows_map(rows: Seq<MapEntry>) -> Map<u32, BundleId> {
    Map::new(
        |id: u32| exists|k: int| 0 <= k < rows.len() && (#[trigger] rows[k]).id == id,
        |id: u32| rows[choose|k: int| 0 <= k < rows.len() && (#[trigger] rows[k]).id == id].bundle,
    )
}

/// Whether no two small ids of `m` stand for the same content-id.
pub open spec fn injective(m: Map<u32, BundleId>) -> bool {
    forall|a: u32, b: u32|
        m.dom().contains(a) && m.dom().contains(b) && #[trigger] m[a] == #[trigger] m[b] ==> a
            == b
}

/// Length of one row of the persisted bundle map.
pub const ROW_BYTES: usize = 20;

/// The 20 bytes of a row: the small id, then the content-id, little-endian.
pub open spec fn row_bytes(e: MapEntry) -> Seq<u8> {
    spec_u32_to_le_bytes(e.id) + spec_u64_to_le_bytes(e.bundle.hash.high) + spec_u64_to_le_bytes(
        e.bundle.hash.low,
    )
}

/// The row that 20 bytes spell out.
pub open spec fn parse_row(b: Seq<u8>) -> MapEntry {
    MapEntry {
        id: spec_u32_from_le_bytes(b.subrange(0, 4)),
        bundle: BundleId {
            hash: hash::Hash {
                high: spec_u64_from_le_bytes(b.subrange(4, 12)),
                low: spec_u64_from_le_bytes(b.subrange(12, 20)),
            },
        },
    }
}

/// The bytes of the rows, one after the other.
pub open spec fn rows_bytes(rows: Seq<MapEntry>) -> Seq<u8>
    decreases rows.len(),
{
    if rows.len() == 0 {
        Seq::empty()
    } else {
        rows_bytes(rows.drop_last()) + row_bytes(rows.last())
    }
}

/// The `n` rows that `b` spells out.
pub open spec fn parse_rows(b: Seq<u8>, n: nat) -> Seq<MapEntry> {
    Seq::new(n, |k: int| parse_row(b.subrange(20 * k, 20 * k + 20)))
}

/// The persisted bundle map: the number of rows, then the rows.
pub open spec fn table_bytes(rows: Seq<MapEntry>) -> Seq<u8> {
    spec_u32_to_le_bytes(rows.len() as u32) + rows_bytes(rows)
}

/// Whether `bytes` is a table: a row count followed by as many rows, and nothing else.
pub open spec fn table_valid(bytes: Seq<u8>) -> bool {
    bytes.len() >= 4 && bytes.len() == 4 + 20 * spec_u32_from_le_bytes(bytes.subrange(0, 4))
}

/// The rows of the table `bytes`.
pub open spec fn table_rows(bytes: Seq<u8>) -> Seq<MapEntry> {
    parse_rows(
        bytes.subrange(4, bytes.len() as int),
        spec_u32_from_le_bytes(bytes.subrange(0, 4)) as nat,
    )
}

/// Encoded rows have 20 bytes each, and parsing them gives the rows back.
pub proof fn lemma_rows_round_trip(rows: Seq<MapEntry>)
    ensures
        rows_bytes(rows).len() == 20 * rows.len(),
        parse_rows(rows_bytes(rows), rows.len()) == rows,
    decreases rows.len(),
{
    lemma_auto_spec_u32_to_from_le_bytes();
    lemma_auto_spec_u64_to_from_le_bytes();
    if rows.len() == 0 {
        assert(parse_rows(rows_bytes(rows), 0) =~= rows);
    } else {
        let front = rows.drop_last();
        lemma_rows_round_trip(front);
        let b = rows_bytes(rows);
        let fb = rows_bytes(front);
        let last = row_bytes(rows.last());
        assert(last.subrange(0, 4) =~= spec_u32_to_le_bytes(rows.last().id));
        assert(last.subrange(4, 12) =~= spec_u64_to_le_bytes(rows.last().bundle.hash.high));
        assert(last.subrange(12, 20) =~= spec_u64_to_le_bytes(rows.last().bundle.hash.low));
        assert forall|k: int| 0 <= k < rows.len() implies parse_rows(b, rows.len())[k]
            == rows[k] by {
            if k < front.len() {
                assert(b.subrange(20 * k, 20 * k + 20) =~= fb.subrange(20 * k, 20 * k + 20));
                assert(parse_rows(fb, front.len())[k] == front[k]);
            } else {
                assert(b.subrange(20 * k, 20 * k + 20) =~= last);
            }
        }
        assert(parse_rows(b, rows.len()) =~= rows);
    }
}

/// Bytes of `n` rows are the encoding of the rows they spell out.
pub proof fn lemma_rows_bytes(b: Seq<u8>, n: nat)
    requires
        b.len() == 20 * n,
    ensures
        rows_bytes(parse_rows(b, n)) == b,
    decreases n,
{
    lemma_auto_spec_u32_to_from_le_bytes();
    lemma_auto_spec_u64_to_from_le_bytes();
    let rows = parse_rows(b, n);
    if n == 0 {
        assert(rows_bytes(rows) =~= b);
    } else {
        let fb = b.subrange(0, 20 * (n - 1));
        lemma_rows_bytes(fb, (n - 1) as nat);
        let front = parse_rows(fb, (n - 1) as nat);
        assert forall|k: int| 0 <= k < n - 1 implies rows.drop_last()[k] == front[k] by {
            assert(b.subrange(20 * k, 20 * k + 20) =~= fb.subrange(20 * k, 20 * k + 20));
        }
        assert(rows.drop_last() =~= front);
        let e = b.subrange(20 * (n - 1), 20 * (n - 1) + 20);
        let row = parse_row(e);
        assert(spec_u32_to_le_bytes(row.id) == e.subrange(0, 4));
        assert(spec_u64_to_le_bytes(row.bundle.hash.high) == e.subrange(4, 12));
        assert(spec_u64_to_le_bytes(row.bundle.hash.low) == e.subrange(12, 20));
        assert(row_bytes(row) =~= e);
        assert(rows_bytes(rows) =~= b);
    }
}

/// The bytes of a table of rows are a table with those rows; and a table is the bytes of
/// its rows.
pub proof fn lemma_table_round_trip(rows: Seq<MapEntry>, bytes: Seq<u8>)
    ensures
        rows.len() <= u32::MAX ==> table_valid(table_bytes(rows)) && table_rows(table_bytes(rows))
            == rows,
        table_valid(bytes) ==> table_bytes(table_rows(bytes)) == bytes,
{
    lemma_auto_spec_u32_to_from_le_bytes();
    if rows.len() <= u32::MAX {
        lemma_rows_round_trip(rows);
        let t = table_bytes(rows);
        assert(t.subrange(0, 4) =~= spec_u32_to_le_bytes(rows.len() as u32));
        assert(t.subrange(4, t.len() as int) =~= rows_bytes(rows));
    }
    if table_valid(bytes) {
        let n = spec_u32_from_le_bytes(bytes.subrange(0, 4)) as nat;
        lemma_rows_bytes(bytes.subrange(4, bytes.len() as int), n);
        assert(spec_u32_to_le_bytes(n as u32) == bytes.subrange(0, 4));
        assert(table_bytes(table_rows(bytes)) =~= bytes);
    }
}

/// Writes out the rows of a bundle map.
pub fn encode_table(rows: &Vec<MapEntry>) -> (out: Vec<u8>)
    requires
        rows@.len() <= u32::MAX,
    ensures
        out@ == table_bytes(rows@),
{
    let mut out = u32_to_le_bytes(rows.len() as u32);
    let ghost head = out@;
    let mut i: usize = 0;
    while i < rows.len()
        invariant
            i <= rows@.len(),
            out@ == head + rows_bytes(rows@.subrange(0, i as int)),
        decreases rows@.len() - i,
    {
        let e = rows[i];
        let ghost before = out@;
        push_bytes(&mut out, &u32_to_le_bytes(e.id));
        push_bytes(&mut out, &u64_to_le_bytes(e.bundle.hash.high));
        push_bytes(&mut out, &u64_to_le_bytes(e.bundle.hash.low));
        proof {
            assert(rows@.subrange(0, i + 1).drop_last() =~= rows@.subrange(0, i as int));
            assert(out@ =~= before + row_bytes(e));
            assert(out@ =~= head + rows_bytes(rows@.subrange(0, i + 1)));
        }
        i += 1;
    }
    assert(rows@.subrange(0, rows@.len() as int) =~= rows@);
    out
}

/// Reads the rows of a persisted bundle map, or nothing if the bytes are not a table.
pub fn decode_table(bytes: &Vec<u8>) -> (r: Option<Vec<MapEntry>>)
    ensures
        r is Some <==> table_valid(bytes@),
        r matches Some(rows) ==> rows@ == table_rows(bytes@) && table_bytes(rows@) == bytes@,
{
    let n = bytes.len();
    if n < 4 {
        return None;
    }
    let count = read_u32(bytes, 0) as usize;
    if (n - 4) / ROW_BYTES != count || (n - 4) % ROW_BYTES != 0 {
        return None;
    }
    let ghost body = bytes@.subrange(4, n as int);
    let mut rows: Vec<MapEntry> = Vec::new();
    let mut k: usize = 0;
    while k < count
        invariant
            k <= count,
            n == bytes@.len(),
            n == 4 + ROW_BYTES * count,
            body == bytes@.subrange(4, n as int),
            rows@ == parse_rows(body, count as nat).subrange(0, k as int),
        decreases count - k,
    {
        let at = 4 + ROW_BYTES * k;
        let id = read_u32(bytes, at);
        let high = read_u64(bytes, at + 4);
        let low = read_u64(bytes, at + 12);
        proof {
            let e = body.subrange(20 * k, 20 * k + 20);
            assert(e.subrange(0, 4) =~= bytes@.subrange(at as int, at + 4));
            assert(e.subrange(4, 12) =~= bytes@.subrange(at + 4, at + 12));
            assert(e.subrange(12, 20) =~= bytes@.subrange(at + 12, at + 20));
        }
        rows.push(MapEntry { id, bundle: BundleId { hash: hash::Hash { high, low } } });
        assert(rows@ =~= parse_rows(body, count as nat).subrange(0, k + 1));
        k += 1;
    }
    assert(rows@ =~= parse_rows(body, count as nat));
    proof {
        lemma_table_round_trip(rows@, bytes@);
    }
    Some(rows)
}

fn push_bytes(out: &mut Vec<u8>, bytes: &Vec<u8>)
    ensures
        final(out)@ == old(out)@ + bytes@,
{
    let mut i: usize = 0;
    while i < bytes.len()
        invariant
            i <= bytes@.len(),
            out@ == old(out)@ + bytes@.subrange(0, i as int),
        decreases bytes@.len() - i,
    {
        out.push(bytes[i]);
        assert(out@ =~= old(out)@ + bytes@.subrange(0, i + 1));
        i += 1;
    }
    assert(bytes@.subrange(0, bytes@.len() as int) =~= bytes@);
}

/// The small id that stands for `bundle` in `m`, if there is one.
pub open spec fn id_of(m: Map<u32, BundleId>, bundle: BundleId) -> Option<u32> {
    if exists|id: u32| #[trigger] m.contains_pair(id, bundle) {
        Some(choose|id: u32| #[trigger] m.contains_pair(id, bundle))
    } else {
        None
    }
}

impl BundleMap {
    /// The rows in the order in which they are kept.
    pub closed spec fn rows(&self) -> Seq<MapEntry> {
        self.entries@
    }

    /// The table invariant: the rows are injective both ways and spell out the view.
    pub closed spec fn wf(&self) -> bool {
        &&& rows_injective(self.entries@)
        &&& forall|k: int|
            0 <= k < self.entries@.len() ==> {
                let e = #[trigger] self.entries@[k];
                self.model@.dom().contains(e.id) && self.model@[e.id] == e.bundle && self.row@[e.id]
                    == k
            }
        &&& forall|id: u32| #[trigger]
            self.model@.dom().contains(id) ==> {
                let k = self.row@[id];
                0 <= k < self.entries@.len() && self.entries@[k].id == id
            }
    }

    /// A well-formed map is injective, and it is the table of its rows.
    pub proof fn lemma_injective(&self)
        requires
            self.wf(),
        ensures
            injective(self@),
            rows_injective(self.rows()),
            self@ == rows_map(self.rows()),
            self@.dom().finite(),
            self@.dom().len() == self.rows().len(),
    {
        let rows = self.entries@;
        assert forall|a: u32, b: u32|
            self@.dom().contains(a) && self@.dom().contains(b) && #[trigger] self@[a]
                == #[trigger] self@[b] implies a == b by {
            let j = self.row@[a];
            let k = self.row@[b];
            assert(rows[j].bundle == rows[k].bundle);
        }
        assert forall|id: u32| self@.dom().contains(id) <==> rows_map(rows).dom().contains(
            id,
        ) by {
            if self@.dom().contains(id) {
                assert(rows[self.row@[id]].id == id);
            }
        }
        assert forall|id: u32| self@.dom().contains(id) implies self@[id] == rows_map(rows)[id] by {
            assert(rows[self.row@[id]].id == id);
            let k = choose|k: int| 0 <= k < rows.len() && (#[trigger] rows[k]).id == id;
            assert(self.row@[rows[k].id] == k);
        }
        assert(self@ =~= rows_map(rows));
        Self::lemma_rows_len(rows);
    }

    proof fn lemma_rows_len(rows: Seq<MapEntry>)
        requires
            rows_injective(rows),
        ensures
            rows_map(rows).dom().finite(),
            rows_map(rows).dom().len() == rows.len(),
        decreases rows.len(),
    {
        if rows.len() == 0 {
            assert(rows_map(rows).dom() =~= Set::<u32>::empty());
        } else {
            let front = rows.drop_last();
            let last = rows.last();
            Self::lemma_rows_len(front);
            assert forall|id: u32| rows_map(rows).dom().contains(id) <==> rows_map(
                front,
            ).dom().insert(last.id).contains(id) by {
                if rows_map(rows).dom().contains(id) {
                    let k = choose|k: int| 0 <= k < rows.len() && (#[trigger] rows[k]).id == id;
                    if k < front.len() {
                        assert(front[k].id == id);
                    }
                }
                if rows_map(front).dom().contains(id) {
                    let k = choose|k: int| 0 <= k < front.len() && (#[trigger] front[k]).id == id;
                    assert(rows[k].id == id);
                }
                if id == last.id {
                    assert(rows[rows.len() - 1].id == id);
                }
            }
            assert(rows_map(rows).dom() =~= rows_map(front).dom().insert(last.id));
            if rows_map(front).dom().contains(last.id) {
                let k = choose|k: int|
                    0 <= k < front.len() && (#[trigger] front[k]).id == last.id;
                assert(rows[k].id == rows[rows.len() - 1].id);
                assert(false);
            }
        }
    }

    /// An empty map.
    pub fn create() -> (m: BundleMap)
        ensures
            m.wf(),
            m@ == Map::<u32, BundleId>::empty(),
            m.rows() == Seq::<MapEntry>::empty(),
    {
        BundleMap { entries: Vec::new(), model: Ghost(Map::empty()), row: Ghost(Map::empty()) }
    }

    /// The number of bundles.
    pub fn len(&self) -> (n: usize)
        requires
            self.wf(),
        ensures
            n == self@.dom().len(),
            n == self.rows().len(),
    {
        proof {
            self.lemma_injective();
        }
        self.entries.len()
    }

    fn position(&self, id: u32) -> (r: Option<usize>)
        requires
            self.wf(),
        ensures
            match r {
                Some(k) => self@.dom().contains(id) && k == self.row@[id] && k
                    < self.entries@.len(),
                None => !self@.dom().contains(id),
            },
    {
        let mut k: usize = 0;
        while k < self.entries.len()
            invariant
                self.wf(),
                k <= self.entries@.len(),
                forall|j: int| 0 <= j < k ==> (#[trigger] self.entries@[j]).id != id,
            decreases self.entries@.len() - k,
        {
            if self.entries[k].id == id {
                return Some(k);
            }
            k += 1;
        }
        None
    }

    /// The content-id that `id` stands for.
    pub fn get(&self, id: u32) -> (r: Option<BundleId>)
        requires
            self.wf(),
        ensures
            r == (if self@.dom().contains(id) {
                Some(self@[id])
            } else {
                None
            }),
    {
        match self.position(id) {
            Some(k) => Some(self.entries[k].bundle),
            None => None,
        }
    }

    /// The small id that stands for `bundle`.
    pub fn find(&self, bundle: &BundleId) -> (r: Option<u32>)
        requires
            self.wf(),
        ensures
            match r {
                Some(id) => self@.contains_pair(id, *bundle),
                None => forall|id: u32| self@.dom().contains(id) ==> #[trigger] self@[id] != *bundle,
            },
            r == id_of(self@, *bundle),
    {
        proof {
            self.lemma_injective();
        }
        let mut k: usize = 0;
        while k < self.entries.len()
            invariant
                self.wf(),
                k <= self.entries@.len(),
                forall|j: int| 0 <= j < k ==> (#[trigger] self.entries@[j]).bundle != *bundle,
            decreases self.entries@.len() - k,
        {
            let e = self.entries[k];
            if e.bundle.hash.high == bundle.hash.high && e.bundle.hash.low == bundle.hash.low {
                proof {
                    assert(self@.contains_pair(e.id, *bundle));
                    let c = choose|id: u32| #[trigger] self@.contains_pair(id, *bundle);
                    assert(self@[c] == self@[e.id]);
                }
                return Some(e.id);
            }
            k += 1;
        }
        proof {
            assert forall|id: u32| self@.dom().contains(id) implies #[trigger] self@[id]
                != *bundle by {
                assert(self.entries@[self.row@[id]].bundle == self@[id]);
            }
        }
        None
    }

    /// Whether `id` can be made to stand for `bundle`: no other id stands for it already.
    pub open spec fn admits(&self, id: u32, bundle: BundleId) -> bool {
        forall|other: u32|
            self@.dom().contains(other) && other != id ==> #[trigger] self@[other] != bundle
    }

    /// Makes `id` stand for `bundle`. Refuses, and changes nothing, if another id stands for
    /// `bundle` already: the map stays injective.
    pub fn set(&mut self, id: u32, bundle: BundleId) -> (ok: bool)
        requires
            old(self).wf(),
        ensures
            final(self).wf(),
            ok == old(self).admits(id, bundle),
            ok ==> final(self)@ == old(self)@.insert(id, bundle),
            ok && !old(self)@.dom().contains(id) ==> final(self).rows() == old(self).rows().push(
                MapEntry { id, bundle },
            ),
            !ok ==> *final(self) == *old(self),
    {
        match self.find(&bundle) {
            Some(other) => {
                if other != id {
                    return false;
                }
                assert(self@.insert(id, bundle) =~= self@);
                true
            },
            None => {
                let ghost before = *self;
                match self.position(id) {
                    Some(k) => {
                        self.entries.set(k, MapEntry { id, bundle });
                        proof {
                            self.model = Ghost(before.model@.insert(id, bundle));
                            assert forall|j: int, l: int| 0 <= j < l < self.entries@.len() implies (
                            #[trigger] self.entries@[j]).id != (#[trigger] self.entries@[l]).id
                                && self.entries@[j].bundle != self.entries@[l].bundle by {
                                assert(before.entries@[j].id != before.entries@[l].id);
                                assert(before.model@[before.entries@[j].id]
                                    == before.entries@[j].bundle);
                                assert(before.model@[before.entries@[l].id]
                                    == before.entries@[l].bundle);
                            }
                        }
                    },
                    None => {
                        self.entries.push(MapEntry { id, bundle });
                        proof {
                            self.model = Ghost(before.model@.insert(id, bundle));
                            self.row = Ghost(before.row@.insert(id, before.entries@.len() as int));
                            assert forall|j: int, l: int| 0 <= j < l < self.entries@.len() implies (
                            #[trigger] self.entries@[j]).id != (#[trigger] self.entries@[l]).id
                                && self.entries@[j].bundle != self.entries@[l].bundle by {
                                assert(before.model@[before.entries@[j].id]
                                    == before.entries@[j].bundle);
                                if l < before.entries@.len() {
                                    assert(before.entries@[j].id != before.entries@[l].id);
                                }
                            }
                        }
                    },
                }
                true
            },
        }
    }

    /// Takes `id` out of the map and returns the content-id it stood for.
    pub fn remove(&mut self, id: u32) -> (r: Option<BundleId>)
        requires
            old(self).wf(),
        ensures
            final(self).wf(),
            r == (if old(self)@.dom().contains(id) {
                Some(old(self)@[id])
            } else {
                None
            }),
            final(self)@ == old(self)@.remove(id),
    {
        match self.position(id) {
            Some(k) => {
                let ghost before = *self;
                let e = self.entries.swap_remove(k);
                proof {
                    let n = before.entries@.len() as int;
                    let moved = before.entries@[n - 1];
                    self.model = Ghost(before.model@.remove(id));
                    if k < n - 1 {
                        self.row = Ghost(before.row@.insert(moved.id, k as int));
                        assert(moved.id != id);
                    }
                    assert forall|j: int| 0 <= j < self.entries@.len() implies {
                        let x = #[trigger] self.entries@[j];
                        self.model@.dom().contains(x.id) && self.model@[x.id] == x.bundle
                            && self.row@[x.id] == j
                    } by {
                        if j == k {
                            assert(self.entries@[j] == before.entries@[n - 1]);
                        } else {
                            assert(self.entries@[j] == before.entries@[j]);
                            assert(before.entries@[j].id != before.entries@[k as int].id);
                            assert(before.entries@[j].id != before.entries@[n - 1].id);
                        }
                    }
                    assert forall|j: int, l: int| 0 <= j < l < self.entries@.len() implies (
                    #[trigger] self.entries@[j]).id != (#[trigger] self.entries@[l]).id
                        && self.entries@[j].bundle != self.entries@[l].bundle by {
                        let a = if j == k { n - 1 } else { j };
                        let b = if l == k { n - 1 } else { l };
                        assert(self.entries@[j] == before.entries@[a]);
                        assert(self.entries@[l] == before.entries@[b]);
                        if a < b {
                            assert(before.entries@[a].id != before.entries@[b].id);
                        } else {
                            assert(before.entries@[b].id != before.entries@[a].id);
                        }
                    }
                    assert forall|g: u32| #[trigger] self.model@.dom().contains(g) implies {
                        let j = self.row@[g];
                        0 <= j < self.entries@.len() && self.entries@[j].id == g
                    } by {
                        let j0 = before.row@[g];
                        assert(before.entries@[j0].id == g);
                        if j0 == n - 1 {
                            assert(g == moved.id);
                        } else {
                            assert(before.entries@[j0].id != before.entries@[n - 1].id);
                        }
                    }
                }
                Some(e.bundle)
            },
            None => {
                assert(self@.remove(id) =~= self@);
                None
            },
        }
    }

    /// The rows of the table, each id once.
    pub fn bundles(&self) -> (out: Vec<MapEntry>)
        requires
            self.wf(),
        ensures
            out@ == self.rows(),
            rows_injective(out@),
            self@ == rows_map(out@),
    {
        proof {
            self.lemma_injective();
        }
        let mut out: Vec<MapEntry> = Vec::new();
        let mut k: usize = 0;
        while k < self.entries.len()
            invariant
                k <= self.entries@.len(),
                out@ == self.entries@.subrange(0, k as int),
            decreases self.entries@.len() - k,
        {
            out.push(self.entries[k]);
            assert(out@ =~= self.entries@.subrange(0, k + 1));
            k += 1;
        }
        assert(out@ =~= self.entries@);
        out
    }

    /// The map that `rows` spell out, or nothing if an id or a content-id occurs twice.
    pub fn load(rows: &Vec<MapEntry>) -> (r: Option<BundleMap>)
        ensures
            r is Some <==> rows_injective(rows@),
            r matches Some(m) ==> m.wf() && m@ == rows_map(rows@) && m.rows() == rows@,
    {
        let mut m = BundleMap::create();
        let mut k: usize = 0;
        while k < rows.len()
            invariant
                k <= rows@.len(),
                m.wf(),
                m.entries@ == rows@.subrange(0, k as int),
                rows_injective(rows@.subrange(0, k as int)),
            decreases rows@.len() - k,
        {
            let e = rows[k];
            let ghost prefix = rows@.subrange(0, k as int);
            if m.position(e.id).is_some() {
                proof {
                    let j = m.row@[e.id];
                    assert(prefix[j].id == e.id);
                    assert(rows@[j].id == rows@[k as int].id);
                }
                return None;
            }
            let ghost before = m;
            if !m.set(e.id, e.bundle) {
                proof {
                    let other = choose|other: u32|
                        before@.dom().contains(other) && other != e.id && #[trigger] before@[other]
                            == e.bundle;
                    let j = before.row@[other];
                    assert(prefix[j].bundle == e.bundle);
                    assert(rows@[j].bundle == rows@[k as int].bundle);
                }
                return None;
            }
            proof {
                assert(m.entries@ =~= rows@.subrange(0, k + 1));
                assert(rows_injective(rows@.subrange(0, k + 1))) by {
                    m.lemma_injective();
                }
            }
            k += 1;
        }
        proof {
            assert(rows@.subrange(0, k as int) =~= rows@);
            m.lemma_injective();
        }
        Some(m)
    }
}

} // verus!
