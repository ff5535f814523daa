use crate::bundle_db::same_id;
use crate::bundle_map::BundleId;
use vstd::prelude::*;

verus! {

/// Number of decoded bundles that a cache holds unless it is told otherwise.
pub const CACHE_BUNDLES: usize = 4;

/// One decoded bundle: its content-id and its raw bytes.
pub struct Decoded {
    pub id: BundleId,
    pub raw: Vec<u8>,
}

/// A cache of decoded bundles that forgets the one that was used least recently. It spares
/// the decoding of a bundle for every chunk when the chunks of a stream are read in order.
/// What it hands out is held against the chunk list like anything else that was decoded.
pub struct DecodedCache {
    entries: Vec<Decoded>,
    capacity: usize,
}

impl View for DecodedCache {
    type V = Seq<Decoded>;

    /// The decoded bundles, the one that was used last first.
    closed spec fn view(&self) -> Seq<Decoded> {
        self.entries@
    }
}

/// The place of the first bundle with content-id `id` in `entries`, or their number if
/// there is none.
pub open spec fn place_of(entries: Seq<Decoded>, id: BundleId) -> int
    decreases entries.len(),
{
    if entries.len() == 0 {
        0
    } else if entries[0].id == id {
        0
    } else {
        1 + place_of(entries.drop_first(), id)
    }
}

/// The place of a bundle lies within the entries, or just behind them, and no entry before
/// it has the content-id.
pub proof fn lemma_place_of(entries: Seq<Decoded>, id: BundleId)
    ensures
        0 <= place_of(entries, id) <= entries.len(),
        place_of(entries, id) < entries.len() ==> entries[place_of(entries, id)].id == id,
        forall|k: int| 0 <= k < place_of(entries, id) ==> (#[trigger] entries[k]).id != id,
    decreases entries.len(),
{
    if entries.len() > 0 && entries[0].id != id {
        let rest = entries.drop_first();
        lemma_place_of(rest, id);
        assert forall|k: int| 0 <= k < place_of(entries, id) implies (#[trigger] entries[k]).id
            != id by {
            if k > 0 {
                assert(rest[k - 1].id != id);
            }
        }
    }
}

impl DecodedCache {
    /// The number of bundles that the cache holds at most.
    pub closed spec fn capacity(&self) -> int {
        self.capacity as int
    }

    /// The cache invariant: it holds no more bundles than its capacity.
    pub closed spec fn wf(&self) -> bool {
        self.entries@.len() <= self.capacity
    }

    /// A cache that keeps its invariant holds no more bundles than its capacity.
    pub proof fn lemma_bounded(&self)
        ensures
            self.capacity() >= 0,
            self.wf() ==> self@.len() <= self.capacity(),
    {
    }

    /// An empty cache for `capacity` bundles.
    pub fn new(capacity: usize) -> (cache: DecodedCache)
        ensures
            cache.wf(),
            cache@ == Seq::<Decoded>::empty(),
            cache.capacity() == capacity,
    {
        DecodedCache { entries: Vec::new(), capacity }
    }

    /// Whether the cache keeps nothing.
    pub fn is_off(&self) -> (r: bool)
        ensures
            r == (self.capacity() == 0),
    {
        self.capacity == 0
    }

    /// The number of decoded bundles in the cache.
    pub fn len(&self) -> (n: usize)
        ensures
            n == self@.len(),
    {
        self.entries.len()
    }

    /// Looks for the decoded bundle `id`. If it is there it becomes the one that was used
    /// last, and the place at which it lies now, the first, is returned.
    pub fn touch(&mut self, id: &BundleId) -> (found: bool)
        requires
            old(self).wf(),
        ensures
            final(self).wf(),
            final(self).capacity() == old(self).capacity(),
            found == (place_of(old(self)@, *id) < old(self)@.len()),
            found ==> final(self)@ == seq![old(self)@[place_of(old(self)@, *id)]] + old(self)@.remove(place_of(old(self)@, *id)),
            !found ==> final(self)@ == old(self)@,
    {
        proof {
            lemma_place_of(self.entries@, *id);
        }
        let mut k: usize = 0;
        while k < self.entries.len()
            invariant
                k <= self.entries@.len(),
                *self == *old(self),
                self.wf(),
                forall|j: int| 0 <= j < k ==> (#[trigger] self.entries@[j]).id != *id,
            decreases self.entries@.len() - k,
        {
            if same_id(&self.entries[k].id, id) {
                proof {
                    Self::lemma_first(self.entries@, *id, k as int);
                }
                let entry = self.entries.remove(k);
                self.entries.insert(0, entry);
                assert(self.entries@ =~= seq![old(self)@[k as int]] + old(self)@.remove(k as int));
                return true;
            }
            k += 1;
        }
        proof {
            Self::lemma_absent(self.entries@, *id);
        }
        false
    }

    /// The first place at which the content-id lies is its place.
    proof fn lemma_first(entries: Seq<Decoded>, id: BundleId, k: int)
        requires
            0 <= k < entries.len(),
            entries[k].id == id,
            forall|j: int| 0 <= j < k ==> (#[trigger] entries[j]).id != id,
        ensures
            place_of(entries, id) == k,
        decreases entries.len(),
    {
        if k > 0 {
            let rest = entries.drop_first();
            assert(entries[0].id != id);
            assert forall|j: int| 0 <= j < k - 1 implies (#[trigger] rest[j]).id != id by {
                assert(entries[j + 1].id != id);
            }
            Self::lemma_first(rest, id, k - 1);
        }
    }

    /// A content-id that lies nowhere has its place behind the entries.
    proof fn lemma_absent(entries: Seq<Decoded>, id: BundleId)
        requires
            forall|j: int| 0 <= j < entries.len() ==> (#[trigger] entries[j]).id != id,
        ensures
            place_of(entries, id) == entries.len(),
        decreases entries.len(),
    {
        if entries.len() > 0 {
            let rest = entries.drop_first();
            assert(entries[0].id != id);
            assert forall|j: int| 0 <= j < rest.len() implies (#[trigger] rest[j]).id != id by {
                assert(entries[j + 1].id != id);
            }
            Self::lemma_absent(rest, id);
        }
    }

    /// The raw bytes of the bundle that was used last.
    pub fn front(&self) -> (raw: &Vec<u8>)
        requires
            self@.len() > 0,
        ensures
            *raw == self@[0].raw,
    {
        &self.entries[0].raw
    }

    /// Puts a decoded bundle in front of the others. If the cache is full, the bundle that
    /// was used least recently leaves. A cache without capacity stays empty.
    pub fn put(&mut self, id: BundleId, raw: Vec<u8>)
        requires
            old(self).wf(),
        ensures
            final(self).wf(),
            final(self).capacity() == old(self).capacity(),
            final(self)@ == (if old(self).capacity() == 0 {
                old(self)@
            } else if old(self)@.len() < old(self).capacity() {
                seq![Decoded { id, raw }] + old(self)@
            } else {
                seq![Decoded { id, raw }] + old(self)@.drop_last()
            }),
    {
        if self.capacity == 0 {
            return ;
        }
        if self.entries.len() >= self.capacity {
            self.entries.pop();
        }
        self.entries.insert(0, Decoded { id, raw });
        assert(self.entries@ =~= (if old(self)@.len() < old(self).capacity() {
            seq![Decoded { id, raw }] + old(self)@
        } else {
            seq![Decoded { id, raw }] + old(self)@.drop_last()
        }));
    }
}

} // verus!
