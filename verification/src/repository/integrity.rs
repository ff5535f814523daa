use crate::bundle::{BundleInfo, ChunkEntry};
use crate::bundle_map::BundleId;
use crate::codec::Compressor;
use crate::error::RepositoryError;
use crate::hash;
use crate::index::Location;
use crate::repository::{entry_ok, storage_failure, Repository};
use vstd::prelude::*;

verus! {

/// The sound entries of `index`.
pub open spec fn sound_part(
    index: Map<hash::Hash, Location>,
    map: Map<u32, BundleId>,
    lists: Map<BundleId, Seq<ChunkEntry>>,
) -> Map<hash::Hash, Location> {
    index.restrict(
        Set::new(|h: hash::Hash| index.dom().contains(h) && entry_ok(map, lists, h, index[h])),
    )
}

impl<C: Compressor> Repository<C> {
    /// Whether the index entry `h -> loc` is sound.
    pub fn check_entry(&self, h: &hash::Hash, loc: &Location) -> (r: bool)
        requires
            self.wf(),
        ensures
            r == entry_ok(self.bundle_map(), self.lists(), *h, *loc),
    {
        let id = match self.bundle_map.get(loc.bundle) {
            Some(id) => id,
            None => {
                return false;
            },
        };
        match self.bundles.chunk_entry(&id, loc.chunk as usize) {
            Some(entry) => entry.hash.high == h.high && entry.hash.low == h.low,
            None => false,
        }
    }

    /// Checks whether the repository was closed cleanly. A dirty repository is reported,
    /// unless the check is there to repair.
    pub fn check_repository(&self, repair: bool) -> (r: Result<(), RepositoryError>)
        requires
            self.wf(),
        ensures
            r == (if self.is_dirty() && !repair {
                Err::<(), RepositoryError>(RepositoryError::DirtyRepository)
            } else {
                Ok::<(), RepositoryError>(())
            }),
    {
        if self.dirty && !repair {
            Err(RepositoryError::DirtyRepository)
        } else {
            Ok(())
        }
    }

    /// Checks the index: every entry has to name a bundle that the bundle map holds, and
    /// that bundle's chunk list has to have the entry's hash at the entry's place. Without
    /// `repair` the index is left alone and an unsound entry is reported as `IndexCorrupt`.
    /// With `repair` the unsound entries are dropped, and what is left is sound.
    pub fn check_index(&mut self, repair: bool) -> (r: Result<(), RepositoryError>)
        requires
            old(self).wf(),
        ensures
            final(self).wf(),
            final(self).same_settings(old(self)),
            final(self).bundle_map() == old(self).bundle_map(),
            final(self).bundle_rows() == old(self).bundle_rows(),
            final(self).infos() == old(self).infos(),
            final(self).lists() == old(self).lists(),
            final(self).blobs() == old(self).blobs(),
            final(self).next_data() == old(self).next_data(),
            final(self).next_meta() == old(self).next_meta(),
            final(self).writer(crate::bundle::BundleMode::Data) == old(self).writer(
                crate::bundle::BundleMode::Data,
            ),
            final(self).writer(crate::bundle::BundleMode::Meta) == old(self).writer(
                crate::bundle::BundleMode::Meta,
            ),
            r == (if repair || old(self).consistent() {
                Ok::<(), RepositoryError>(())
            } else {
                Err::<(), RepositoryError>(RepositoryError::IndexCorrupt)
            }),
            final(self).index() == (if repair {
                sound_part(old(self).index(), old(self).bundle_map(), old(self).lists())
            } else {
                old(self).index()
            }),
            r is Ok ==> final(self).consistent(),
    {
        let entries = self.index.entries();
        let mut k: usize = 0;
        let mut sound = true;
        let ghost before = *self;
        while k < entries.len()
            invariant
                self.wf(),
                before.wf(),
                before == *old(self),
                k <= entries@.len(),
                forall|j: int|
                    0 <= j < entries@.len() ==> before.index().contains_pair(
                        (#[trigger] entries@[j]).0,
                        entries@[j].1,
                    ),
                forall|h: hash::Hash|
                    before.index().dom().contains(h) ==> exists|j: int|
                        0 <= j < entries@.len() && (#[trigger] entries@[j]).0 == h,
                forall|i: int, j: int|
                    0 <= i < j < entries@.len() ==> (#[trigger] entries@[i]).0 != (
                    #[trigger] entries@[j]).0,
                self.same_settings(&before),
                self.bundle_map() == before.bundle_map(),
                self.bundle_rows() == before.bundle_rows(),
                self.infos() == before.infos(),
                self.lists() == before.lists(),
                self.blobs() == before.blobs(),
                self.next_data() == before.next_data(),
                self.next_meta() == before.next_meta(),
                self.writer(crate::bundle::BundleMode::Data) == before.writer(
                    crate::bundle::BundleMode::Data,
                ),
                self.writer(crate::bundle::BundleMode::Meta) == before.writer(
                    crate::bundle::BundleMode::Meta,
                ),
                sound <==> forall|j: int|
                    0 <= j < k ==> #[trigger] before.entry_sound(entries@, j),
                !repair ==> self.index() == before.index(),
                repair ==> forall|h: hash::Hash|
                    self.index().dom().contains(h) <==> before.index().dom().contains(h)
                        && before.kept(entries@, h, k as int),
                forall|h: hash::Hash| #[trigger]
                    self.index().dom().contains(h) ==> self.index()[h] == before.index()[h],
            decreases entries@.len() - k,
        {
            let (h, loc) = entries[k];
            let ok = self.check_entry(&h, &loc);
            proof {
                assert(before.index().contains_pair(entries@[k as int].0, entries@[k as int].1));
                assert(ok == before.entry_sound(entries@, k as int));
            }
            if !ok {
                sound = false;
                if repair {
                    self.index.delete(&h);
                }
            }
            proof {
                if repair {
                    assert forall|g: hash::Hash|
                        self.index().dom().contains(g) <==> before.index().dom().contains(g)
                            && before.kept(entries@, g, k + 1) by {
                        if before.index().dom().contains(g) {
                            let j = choose|j: int|
                                0 <= j < entries@.len() && (#[trigger] entries@[j]).0 == g;
                            before.lemma_kept(entries@, g, k as int, j);
                            before.lemma_kept(entries@, g, k + 1, j);
                            if j == k {
                                assert(g == h);
                            } else if j < k {
                                assert(entries@[j].0 != entries@[k as int].0);
                            } else {
                                assert(entries@[k as int].0 != entries@[j].0);
                            }
                        }
                    }
                }
            }
            k += 1;
        }
        proof {
            if sound {
                assert forall|h: hash::Hash| #[trigger]
                    before.index().dom().contains(h) implies entry_ok(
                    before.bundle_map(),
                    before.lists(),
                    h,
                    before.index()[h],
                ) by {
                    let j = choose|j: int|
                        0 <= j < entries@.len() && (#[trigger] entries@[j]).0 == h;
                    assert(before.entry_sound(entries@, j));
                }
            } else {
                let j = choose|j: int| 0 <= j < k && !#[trigger] before.entry_sound(entries@, j);
                assert(before.index().contains_pair(entries@[j].0, entries@[j].1));
                assert(!entry_ok(
                    before.bundle_map(),
                    before.lists(),
                    entries@[j].0,
                    before.index()[entries@[j].0],
                ));
            }
            if repair {
                let want = sound_part(before.index(), before.bundle_map(), before.lists());
                assert forall|g: hash::Hash| self.index().dom().contains(g) <==> want.dom().contains(
                    g,
                ) by {
                    if before.index().dom().contains(g) {
                        let j = choose|j: int|
                            0 <= j < entries@.len() && (#[trigger] entries@[j]).0 == g;
                        before.lemma_kept(entries@, g, k as int, j);
                        assert(before.index().contains_pair(entries@[j].0, entries@[j].1));
                    }
                }
                assert forall|g: hash::Hash| #[trigger]
                    self.index().dom().contains(g) implies self.index()[g] == want[g] by {
                    assert(want.dom().contains(g));
                    assert(self.index()[g] == before.index()[g]);
                }
                assert(self.index().dom() =~= want.dom());
                assert(self.index() =~= want);
            }
        }
        if !sound && !repair {
            return Err(RepositoryError::IndexCorrupt);
        }
        Ok(())
    }

    /// Whether entry `j` of `entries` is sound.
    pub open spec fn entry_sound(&self, entries: Seq<(hash::Hash, Location)>, j: int) -> bool {
        entry_ok(self.bundle_map(), self.lists(), entries[j].0, entries[j].1)
    }

    /// Whether the fingerprint `h` stays after the first `upto` entries were checked: it is
    /// not among them, or its entry is sound.
    pub open spec fn kept(&self, entries: Seq<(hash::Hash, Location)>, h: hash::Hash, upto: int) -> bool {
        forall|j: int|
            0 <= j < upto && (#[trigger] entries[j]).0 == h ==> self.entry_sound(entries, j)
    }

    /// A fingerprint that occurs once stays if and only if its entry was not checked yet or
    /// is sound.
    pub proof fn lemma_kept(
        &self,
        entries: Seq<(hash::Hash, Location)>,
        h: hash::Hash,
        upto: int,
        j: int,
    )
        requires
            0 <= j < entries.len(),
            0 <= upto <= entries.len(),
            entries[j].0 == h,
            forall|a: int, b: int|
                0 <= a < b < entries.len() ==> (#[trigger] entries[a]).0 != (#[trigger] entries[b]).0,
        ensures
            self.kept(entries, h, upto) == (j >= upto || self.entry_sound(entries, j)),
    {
        if j >= upto || self.entry_sound(entries, j) {
            assert forall|i: int| 0 <= i < upto && (#[trigger] entries[i]).0 == h implies self.entry_sound(
                entries,
                i,
            ) by {
                if i < j {
                    assert(entries[i].0 != entries[j].0);
                }
                if j < i {
                    assert(entries[j].0 != entries[i].0);
                }
            }
        }
    }

    /// Whether every known bundle lies on the remote under its own content-id.
    pub open spec fn bundles_sound(&self) -> bool {
        forall|id: BundleId| #[trigger]
            self.infos().dom().contains(id) ==> self.blobs().dom().contains(id)
                && crate::bundle::is_content_id(
                id,
                self.infos()[id],
                self.lists()[id],
                self.blobs()[id],
            )
    }

    /// Whether every known bundle takes its content-id with BLAKE2b.
    pub open spec fn all_blake(&self) -> bool {
        forall|id: BundleId| #[trigger]
            self.infos().dom().contains(id) ==> self.infos()[id].hash_method is Blake2
    }

    /// Whether chunk `i` of bundle `id` was read.
    pub open spec fn chunk_readable(&self, id: BundleId, i: int) -> bool {
        exists|data: Vec<u8>| #[trigger]
            crate::bundle_db::chunk_read(
                self.infos(),
                self.lists(),
                self.blobs(),
                self.keys(),
                id,
                i,
                Ok::<Vec<u8>, RepositoryError>(data),
            )
    }

    /// Whether every chunk of bundle `id` was read.
    pub open spec fn bundle_readable(&self, id: BundleId) -> bool {
        forall|i: int| 0 <= i < self.infos()[id].chunk_count ==> #[trigger] self.chunk_readable(id, i)
    }

    /// Whether reading chunk `i` of bundle `id` failed with `e`.
    pub open spec fn chunk_fails(&self, id: BundleId, i: int, e: RepositoryError) -> bool {
        0 <= i < self.infos()[id].chunk_count && crate::bundle_db::chunk_read(
            self.infos(),
            self.lists(),
            self.blobs(),
            self.keys(),
            id,
            i,
            Err::<Vec<u8>, RepositoryError>(e),
        )
    }

    /// Whether the check of the known bundle `id` failed with `e`: the remote does not hold
    /// it and `e` is `BundleMissing`; or it does not lie under its content-id and `e` is
    /// `BundleFormat`; or, with `bundle_data`, reading one of its chunks failed with `e`.
    pub open spec fn bundle_fails(&self, id: BundleId, bundle_data: bool, e: RepositoryError) -> bool {
        if !self.blobs().dom().contains(id) {
            e == RepositoryError::BundleMissing(id)
        } else {
            ||| e == RepositoryError::BundleFormat && (self.infos()[id].hash_method is Blake2
                ==> !crate::bundle::is_content_id(
                id,
                self.infos()[id],
                self.lists()[id],
                self.blobs()[id],
            ))
            ||| bundle_data && exists|i: int| #[trigger] self.chunk_fails(id, i, e)
        }
    }

    /// Whether the check of some known bundle failed with `e`.
    pub open spec fn bundles_fail(&self, bundle_data: bool, e: RepositoryError) -> bool {
        exists|id: BundleId|
            self.infos().dom().contains(id) && #[trigger] self.bundle_fails(id, bundle_data, e)
    }

    /// Checks the bundles: every known bundle has to lie on the remote under its own
    /// content-id. With `bundle_data`, every chunk of every bundle is read as well, which
    /// decodes the blob and holds each chunk against the chunk list. The first bundle that
    /// fails is reported. Where all bundles take their content-id with BLAKE2b and no chunk
    /// is read, the check passes exactly when every bundle lies under its content-id.
    pub fn check_bundles(&self, bundle_data: bool) -> (r: Result<(), RepositoryError>)
        requires
            self.wf(),
        ensures
            r is Ok ==> self.bundles_sound(),
            r is Ok && bundle_data ==> forall|id: BundleId|
                self.infos().dom().contains(id) ==> #[trigger] self.bundle_readable(id),
            r matches Err(e) ==> self.bundles_fail(bundle_data, e),
            !bundle_data && self.all_blake() ==> (r is Ok <==> self.bundles_sound()),
            r matches Err(e) ==> storage_failure(e),
            r matches Err(RepositoryError::BundleMissing(id)) ==> self.infos().dom().contains(id)
                && !self.blobs().dom().contains(id),
    {
        let bundles = self.list_bundles();
        let mut k: usize = 0;
        while k < bundles.len()
            invariant
                self.wf(),
                k <= bundles@.len(),
                forall|j: int|
                    0 <= j < bundles@.len() ==> self.infos().contains_pair(
                        (#[trigger] bundles@[j]).id,
                        bundles@[j],
                    ),
                forall|j: int| 0 <= j < k ==> #[trigger] self.bundle_checked(bundles@, j),
                bundle_data ==> forall|j: int|
                    0 <= j < k ==> self.bundle_readable((#[trigger] bundles@[j]).id),
            decreases bundles@.len() - k,
        {
            let info = bundles[k];
            proof {
                assert(self.infos().contains_pair(bundles@[k as int].id, bundles@[k as int]));
                self.lemma_wf();
                self.bundles.lemma_views();
            }
            match self.bundles.check_content_id(&info.id) {
                Ok(()) => {},
                Err(e) => {
                    proof {
                        assert(self.bundle_fails(info.id, bundle_data, e));
                    }
                    return Err(e);
                },
            }
            if bundle_data {
                let mut i: usize = 0;
                while i < info.chunk_count
                    invariant
                        self.wf(),
                        bundle_data,
                        i <= info.chunk_count,
                        info == self.infos()[info.id],
                        self.infos().dom().contains(info.id),
                        self.lists().dom().contains(info.id),
                        self.blobs().dom().contains(info.id),
                        forall|t: int| 0 <= t < i ==> #[trigger] self.chunk_readable(info.id, t),
                    decreases info.chunk_count - i,
                {
                    match self.bundles.get_chunk(&self.codec, &self.crypto, &info.id, i) {
                        Ok(data) => {
                            assert(crate::bundle_db::chunk_read(
                                self.infos(),
                                self.lists(),
                                self.blobs(),
                                self.keys(),
                                info.id,
                                i as int,
                                Ok::<Vec<u8>, RepositoryError>(data),
                            ));
                            assert(self.chunk_readable(info.id, i as int));
                        },
                        Err(RepositoryError::BundleMissing(_)) => {
                            assert(false);
                            return Err(RepositoryError::BundleFormat);
                        },
                        Err(e) => {
                            proof {
                                self.lemma_read_error(info.id, i as int, Err(e));
                                assert(self.chunk_fails(info.id, i as int, e));
                                assert(self.bundle_fails(info.id, bundle_data, e));
                            }
                            return Err(e);
                        },
                    }
                    i += 1;
                }
                assert(self.bundle_readable(info.id));
            }
            assert(self.bundle_checked(bundles@, k as int));
            k += 1;
        }
        proof {
            assert forall|id: BundleId| #[trigger]
                self.infos().dom().contains(id) implies self.blobs().dom().contains(id)
                && crate::bundle::is_content_id(
                id,
                self.infos()[id],
                self.lists()[id],
                self.blobs()[id],
            ) by {
                let j = choose|j: int| 0 <= j < bundles@.len() && (#[trigger] bundles@[j]).id == id;
                assert(self.bundle_checked(bundles@, j));
            }
            if bundle_data {
                assert forall|id: BundleId|
                    self.infos().dom().contains(id) implies #[trigger] self.bundle_readable(id) by {
                    let j = choose|j: int|
                        0 <= j < bundles@.len() && (#[trigger] bundles@[j]).id == id;
                    assert(self.bundle_readable(bundles@[j].id));
                }
            }
        }
        Ok(())
    }

    /// Whether bundle `j` of `bundles` lies on the remote under its own content-id.
    pub open spec fn bundle_checked(&self, bundles: Seq<BundleInfo>, j: int) -> bool {
        let id = bundles[j].id;
        self.blobs().dom().contains(id) && crate::bundle::is_content_id(
            id,
            self.infos()[id],
            self.lists()[id],
            self.blobs()[id],
        )
    }

    /// Reading a chunk does not fail for a lock.
    pub proof fn lemma_read_error(&self, id: BundleId, idx: int, r: Result<Vec<u8>, RepositoryError>)
        requires
            crate::bundle_db::chunk_read(
                self.infos(),
                self.lists(),
                self.blobs(),
                self.keys(),
                id,
                idx,
                r,
            ),
        ensures
            r matches Err(e) ==> storage_failure(e),
    {
    }

    /// Checks that a stream can be read back: every listed fingerprint has to be indexed,
    /// and its entry has to be sound and to lead to a chunk of the listed length.
    pub fn check_chunks(&self, list: &Vec<ChunkEntry>) -> (r: Result<(), RepositoryError>)
        requires
            self.wf(),
        ensures
            match r {
                Ok(()) => forall|k: int| 0 <= k < list@.len() ==> #[trigger] self.resolves(list@[k]),
                Err(RepositoryError::ChunkMissing(h)) => !self.index().dom().contains(h) && exists|
                    k: int,
                | 0 <= k < list@.len() && (#[trigger] list@[k]).hash == h,
                Err(RepositoryError::IndexCorrupt) => exists|k: int|
                    0 <= k < list@.len() && self.index().dom().contains(list@[k].hash)
                        && !#[trigger] self.resolves(list@[k]),
                Err(_) => false,
            },
    {
        let mut k: usize = 0;
        while k < list.len()
            invariant
                self.wf(),
                k <= list@.len(),
                forall|j: int| 0 <= j < k ==> #[trigger] self.resolves(list@[j]),
            decreases list@.len() - k,
        {
            let entry = list[k];
            let loc = match self.index.get(&entry.hash) {
                Some(loc) => loc,
                None => {
                    return Err(RepositoryError::ChunkMissing(entry.hash));
                },
            };
            let ok = match self.bundle_map.get(loc.bundle) {
                Some(id) => match self.bundles.chunk_entry(&id, loc.chunk as usize) {
                    Some(found) => found.hash.high == entry.hash.high && found.hash.low
                        == entry.hash.low && found.len == entry.len,
                    None => false,
                },
                None => false,
            };
            if !ok {
                assert(!self.resolves(list@[k as int]));
                return Err(RepositoryError::IndexCorrupt);
            }
            assert(self.resolves(list@[k as int]));
            k += 1;
        }
        Ok(())
    }

    /// Whether `entry` resolves: its fingerprint is indexed, the index entry is sound, and
    /// the chunk it leads to has the listed length.
    pub open spec fn resolves(&self, entry: ChunkEntry) -> bool {
        &&& self.index().dom().contains(entry.hash)
        &&& entry_ok(self.bundle_map(), self.lists(), entry.hash, self.index()[entry.hash])
        &&& self.lists()[self.bundle_map()[self.index()[entry.hash].bundle]][self.index()[entry.hash].chunk as int].len
            == entry.len
    }

    /// Whether the checks that were asked for failed with `e`: a dirty repository that is
    /// not to be repaired gives `DirtyRepository`; else the check of a bundle failed, or
    /// the bundles passed and the index, which is not to be repaired, holds an unsound
    /// entry.
    pub open spec fn check_failed(
        &self,
        bundles: bool,
        bundle_data: bool,
        index: bool,
        repair: bool,
        e: RepositoryError,
    ) -> bool {
        if self.is_dirty() && !repair {
            e == RepositoryError::DirtyRepository
        } else {
            ||| bundles && self.bundles_fail(bundle_data, e)
            ||| index && !repair && !self.consistent() && e == RepositoryError::IndexCorrupt && (
            bundles ==> self.bundles_sound())
        }
    }

    /// Runs the checks that are asked for, and clears the dirty mark if all of them pass.
    /// Without a check of the bundles the outcome follows from the dirty mark and the index
    /// alone; so it does where every bundle takes its content-id with BLAKE2b and no chunk is
    /// read.
    pub fn check(&mut self, bundles: bool, bundle_data: bool, index: bool, repair: bool) -> (r:
        Result<(), RepositoryError>)
        requires
            old(self).wf(),
        ensures
            final(self).wf(),
            final(self).bundle_map() == old(self).bundle_map(),
            final(self).infos() == old(self).infos(),
            final(self).lists() == old(self).lists(),
            final(self).blobs() == old(self).blobs(),
            final(self).config() == old(self).config(),
            final(self).keys() == old(self).keys(),
            old(self).is_dirty() && !repair ==> r == Err::<(), RepositoryError>(
                RepositoryError::DirtyRepository,
            ),
            r is Ok ==> !final(self).is_dirty(),
            r is Err ==> final(self).is_dirty() == old(self).is_dirty(),
            r matches Err(e) ==> old(self).check_failed(bundles, bundle_data, index, repair, e),
            r is Ok ==> (!old(self).is_dirty() || repair) && (bundles ==> old(self).bundles_sound())
                && (index ==> repair || old(self).consistent()),
            r is Ok && bundles && bundle_data ==> forall|id: BundleId|
                old(self).infos().dom().contains(id) ==> #[trigger] old(self).bundle_readable(id),
            !bundles || (!bundle_data && old(self).all_blake()) ==> (r is Ok <==> (!old(self).is_dirty() || repair) && (bundles ==> old(self).bundles_sound()) && (index ==> repair
                || old(self).consistent())),
            r is Ok && index ==> final(self).consistent(),
            !(index && repair) ==> final(self).index() == old(self).index(),
            index && repair && r is Ok ==> final(self).index() == sound_part(
                old(self).index(),
                old(self).bundle_map(),
                old(self).lists(),
            ),
    {
        match self.check_repository(repair) {
            Ok(()) => {},
            Err(e) => {
                return Err(e);
            },
        }
        if bundles {
            match self.check_bundles(bundle_data) {
                Ok(()) => {},
                Err(e) => {
                    return Err(e);
                },
            }
        }
        if index {
            match self.check_index(repair) {
                Ok(()) => {},
                Err(e) => {
                    return Err(e);
                },
            }
        }
        self.set_clean();
        Ok(())
    }
}

} // verus!
