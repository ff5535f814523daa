use crate::bundle::{BundleMode, ChunkEntry};
use crate::bundle_db::chunk_read;
use crate::bundle_map::BundleId;
use crate::codec::Compressor;
use crate::error::RepositoryError;
use crate::hash;
use crate::index::Location;
use crate::repository::info::{clip_add, in_use, BundleAnalysis};
use crate::repository::{is_lock_error, storage_failure, Repository};
use vstd::prelude::*;

verus! {

/// What a vacuum run rewrites and what that sets free.
#[derive(Debug)]
pub struct VacuumReport {
    /// The small ids of the bundles in the rewrite set, in the order of the bundle map's rows.
    pub rewrite_bundles: Vec<u32>,
    /// Sum of the unused bytes of the bundles that the usage ratio selects, or `u64::MAX` if
    /// it is larger.
    pub reclaim_space: u64,
}

/// Whether a bundle is small: four times its encoded size is less than the bundle size.
pub open spec fn small(a: BundleAnalysis, bundle_size: usize) -> bool {
    a.info.encoded_size * 4 < bundle_size
}

/// The number of small bundles of `mode` among the first `upto` analyses.
pub open spec fn small_count(
    usage: Seq<BundleAnalysis>,
    mode: BundleMode,
    bundle_size: usize,
    upto: int,
) -> nat
    decreases upto,
{
    if upto <= 0 {
        0
    } else {
        small_count(usage, mode, bundle_size, upto - 1) + (if small(usage[upto - 1], bundle_size)
            && usage[upto - 1].info.mode == mode {
            1nat
        } else {
            0nat
        })
    }
}

/// Whether bundle `k` is in the rewrite set: at most `ratio` hundredths of it are in use, or
/// bundles are to be combined, it is small, and so is another bundle of its mode.
pub open spec fn chosen(
    usage: Seq<BundleAnalysis>,
    k: int,
    ratio: u32,
    combine: bool,
    bundle_size: usize,
) -> bool {
    ||| usage[k].usage_at_most(ratio)
    ||| combine && small(usage[k], bundle_size) && small_count(
        usage,
        usage[k].info.mode,
        bundle_size,
        usage.len() as int,
    ) >= 2
}

/// The small ids of the chosen bundles among the first `upto` analyses, in order.
pub open spec fn rewrite_set(
    usage: Seq<BundleAnalysis>,
    ratio: u32,
    combine: bool,
    bundle_size: usize,
    upto: int,
) -> Seq<u32>
    decreases upto,
{
    if upto <= 0 {
        Seq::empty()
    } else {
        let rest = rewrite_set(usage, ratio, combine, bundle_size, upto - 1);
        if chosen(usage, upto - 1, ratio, combine, bundle_size) {
            rest.push(usage[upto - 1].id)
        } else {
            rest
        }
    }
}

/// Sum of the unused bytes of the bundles that the usage ratio selects among the first
/// `upto` analyses, clipped at `u64::MAX`.
pub open spec fn reclaimable(usage: Seq<BundleAnalysis>, ratio: u32, upto: int) -> u64
    decreases upto,
{
    if upto <= 0 {
        0
    } else if usage[upto - 1].usage_at_most(ratio) {
        clip_add(reclaimable(usage, ratio, upto - 1), usage[upto - 1].unused_size as int)
    } else {
        reclaimable(usage, ratio, upto - 1)
    }
}

/// Every id of the rewrite set is the id of a chosen analysis.
pub proof fn lemma_rewrite_set(
    usage: Seq<BundleAnalysis>,
    ratio: u32,
    combine: bool,
    bundle_size: usize,
    upto: int,
)
    requires
        0 <= upto <= usage.len(),
    ensures
        forall|id: u32|
            rewrite_set(usage, ratio, combine, bundle_size, upto).contains(id) <==> exists|k: int|
                0 <= k < upto && chosen(usage, k, ratio, combine, bundle_size) && (
                #[trigger] usage[k]).id == id,
    decreases upto,
{
    if upto > 0 {
        lemma_rewrite_set(usage, ratio, combine, bundle_size, upto - 1);
        let rest = rewrite_set(usage, ratio, combine, bundle_size, upto - 1);
        let all = rewrite_set(usage, ratio, combine, bundle_size, upto);
        assert forall|id: u32|
            all.contains(id) <==> exists|k: int|
                0 <= k < upto && chosen(usage, k, ratio, combine, bundle_size) && (
                #[trigger] usage[k]).id == id by {
            if all.contains(id) {
                let i = choose|i: int| 0 <= i < all.len() && all[i] == id;
                if i < rest.len() {
                    assert(rest[i] == id);
                    assert(rest.contains(id));
                } else {
                    assert(usage[upto - 1].id == id);
                }
            }
            if exists|k: int|
                0 <= k < upto && chosen(usage, k, ratio, combine, bundle_size) && (
                #[trigger] usage[k]).id == id {
                let k = choose|k: int|
                    0 <= k < upto && chosen(usage, k, ratio, combine, bundle_size) && (
                    #[trigger] usage[k]).id == id;
                if k < upto - 1 {
                    assert(rest.contains(id));
                    let i = choose|i: int| 0 <= i < rest.len() && rest[i] == id;
                    assert(all[i] == id);
                } else {
                    assert(all[all.len() - 1] == id);
                }
            }
        }
    }
}

/// No more bundles are small than there are.
pub proof fn lemma_small_count(
    usage: Seq<BundleAnalysis>,
    mode: BundleMode,
    bundle_size: usize,
    upto: int,
)
    requires
        0 <= upto,
    ensures
        small_count(usage, mode, bundle_size, upto) <= upto,
    decreases upto,
{
    if upto > 0 {
        lemma_small_count(usage, mode, bundle_size, upto - 1);
    }
}

/// Picks the rewrite set and works out what rewriting sets free.
pub fn select_rewrite(usage: &Vec<BundleAnalysis>, ratio: u32, combine: bool, bundle_size: usize) -> (r:
    VacuumReport)
    ensures
        r.rewrite_bundles@ == rewrite_set(usage@, ratio, combine, bundle_size, usage@.len() as int),
        r.reclaim_space == reclaimable(usage@, ratio, usage@.len() as int),
{
    let n = usage.len();
    let mut small_data: usize = 0;
    let mut small_meta: usize = 0;
    let mut k: usize = 0;
    while k < n
        invariant
            n == usage@.len(),
            k <= n,
            small_data == small_count(usage@, BundleMode::Data, bundle_size, k as int),
            small_meta == small_count(usage@, BundleMode::Meta, bundle_size, k as int),
        decreases n - k,
    {
        proof {
            lemma_small_count(usage@, BundleMode::Data, bundle_size, k as int);
            lemma_small_count(usage@, BundleMode::Meta, bundle_size, k as int);
        }
        if is_small(&usage[k], bundle_size) {
            match usage[k].info.mode {
                BundleMode::Data => {
                    small_data += 1;
                },
                BundleMode::Meta => {
                    small_meta += 1;
                },
            }
        }
        k += 1;
    }
    let mut rewrite: Vec<u32> = Vec::new();
    let mut reclaim: u64 = 0;
    let mut k: usize = 0;
    while k < n
        invariant
            n == usage@.len(),
            k <= n,
            small_data == small_count(usage@, BundleMode::Data, bundle_size, n as int),
            small_meta == small_count(usage@, BundleMode::Meta, bundle_size, n as int),
            rewrite@ == rewrite_set(usage@, ratio, combine, bundle_size, k as int),
            reclaim == reclaimable(usage@, ratio, k as int),
        decreases n - k,
    {
        let a = &usage[k];
        let by_ratio = a.get_usage_at_most(ratio);
        if by_ratio {
            let unused = a.get_unused_size() as u64;
            reclaim = if reclaim > u64::MAX - unused {
                u64::MAX
            } else {
                reclaim + unused
            };
        }
        let others = match a.info.mode {
            BundleMode::Data => small_data,
            BundleMode::Meta => small_meta,
        };
        if by_ratio || (combine && is_small(a, bundle_size) && others >= 2) {
            rewrite.push(a.id);
        }
        k += 1;
    }
    VacuumReport { rewrite_bundles: rewrite, reclaim_space: reclaim }
}

fn is_small(a: &BundleAnalysis, bundle_size: usize) -> (r: bool)
    ensures
        r == small(*a, bundle_size),
{
    (a.info.encoded_size as u128) * 4 < bundle_size as u128
}

fn contains_id(ids: &Vec<u32>, id: u32) -> (r: bool)
    ensures
        r == ids@.contains(id),
{
    let mut k: usize = 0;
    while k < ids.len()
        invariant
            k <= ids@.len(),
            forall|j: int| 0 <= j < k ==> ids@[j] != id,
        decreases ids@.len() - k,
    {
        if ids[k] == id {
            return true;
        }
        k += 1;
    }
    false
}

impl<C: Compressor> Repository<C> {
    /// Whether no index entry points into a bundle of `ids`.
    pub open spec fn clear_of(&self, ids: Seq<u32>) -> bool {
        forall|h: hash::Hash| #[trigger]
            self.index().dom().contains(h) ==> !ids.contains(self.index()[h].bundle)
    }

    /// Whether no index entry points into a bundle of `ids`.
    pub fn check_clear_of(&self, ids: &Vec<u32>) -> (r: bool)
        requires
            self.wf(),
        ensures
            r == self.clear_of(ids@),
    {
        let entries = self.index.entries();
        let mut k: usize = 0;
        while k < entries.len()
            invariant
                self.wf(),
                k <= entries@.len(),
                forall|j: int|
                    0 <= j < entries@.len() ==> self.index().contains_pair(
                        (#[trigger] entries@[j]).0,
                        entries@[j].1,
                    ),
                forall|j: int| 0 <= j < k ==> !ids@.contains((#[trigger] entries@[j]).1.bundle),
            decreases entries@.len() - k,
        {
            if contains_id(ids, entries[k].1.bundle) {
                proof {
                    assert(self.index().contains_pair(entries@[k as int].0, entries@[k as int].1));
                }
                return false;
            }
            k += 1;
        }
        proof {
            assert forall|h: hash::Hash| #[trigger] self.index().dom().contains(h) implies !ids@.contains(
                self.index()[h].bundle,
            ) by {
                let j = choose|j: int| 0 <= j < entries@.len() && (#[trigger] entries@[j]).0 == h;
                assert(self.index().contains_pair(entries@[j].0, entries@[j].1));
            }
        }
        true
    }

    /// Whether rewriting the bundle behind `id` failed with `e` at its chunk `i`, which is in
    /// use: the chunks before it had led to `at`; there reading the chunk failed with `e`
    /// and nothing more was changed, or the chunk was read and writing it failed with `e`.
    pub open spec fn rewrite_failed_at(
        &self,
        at: &Self,
        new: &Self,
        id: u32,
        i: int,
        e: RepositoryError,
    ) -> bool {
        let cid = self.bundle_map()[id];
        let entry = self.lists()[cid][i];
        &&& 0 <= i < self.lists()[cid].len()
        &&& self.carried(at)
        &&& at.same_terms(self)
        &&& at.index().contains_pair(entry.hash, Location { bundle: id, chunk: i as u32 })
        &&& at.was_read(new, cid, i, e) || at.was_written(
            new,
            cid,
            i,
            self.infos()[cid].mode,
            entry.hash,
            e,
        )
    }

    /// Whether configuration, keys and time are those of `other`.
    pub open spec fn same_terms(&self, other: &Self) -> bool {
        &&& self.config() == other.config()
        &&& self.keys() == other.keys()
        &&& self.time() == other.time()
    }

    /// Whether no index entry points into the bundle behind the small id `id`.
    pub open spec fn unused(&self, id: u32) -> bool {
        forall|h: hash::Hash| #[trigger]
            self.index().dom().contains(h) ==> self.index()[h].bundle != id
    }

    /// Whether `usage` is the analysis of every bundle of the bundle map, row by row.
    pub open spec fn plan_of(&self, usage: Seq<BundleAnalysis>) -> bool {
        &&& usage.len() == self.bundle_rows().len()
        &&& forall|k: int| 0 <= k < usage.len() ==> #[trigger] self.analysed(usage, k)
    }

    /// Whether a vacuum run with `ratio` and `combine` has nothing to rewrite: no index
    /// entry points into a bundle of the rewrite set, so the set holds unused bundles
    /// alone.
    pub open spec fn idle_plan(&self, ratio: u32, combine: bool) -> bool {
        forall|usage: Seq<BundleAnalysis>| #[trigger]
            self.plan_of(usage) ==> self.clear_of(
                rewrite_set(usage, ratio, combine, self.config().bundle_size, usage.len() as int),
            )
    }

    /// Whether reading chunk `i` of bundle `cid` failed with `e` and left `new`, which is
    /// `self`.
    pub open spec fn was_read(&self, new: &Self, cid: BundleId, i: int, e: RepositoryError) -> bool {
        new.same_storage(self) && chunk_read(
            self.infos(),
            self.lists(),
            self.blobs(),
            self.keys(),
            cid,
            i,
            Err::<Vec<u8>, RepositoryError>(e),
        )
    }

    /// Whether chunk `i` of bundle `cid` was read and writing it with the fingerprint `h`
    /// failed with `e` and left `new`.
    pub open spec fn was_written(
        &self,
        new: &Self,
        cid: BundleId,
        i: int,
        mode: crate::bundle::BundleMode,
        h: hash::Hash,
        e: RepositoryError,
    ) -> bool {
        exists|data: Vec<u8>| #[trigger]
            chunk_read(
                self.infos(),
                self.lists(),
                self.blobs(),
                self.keys(),
                cid,
                i,
                Ok::<Vec<u8>, RepositoryError>(data),
            ) && self.written(new, mode, h, data@, Err::<Location, RepositoryError>(e))
    }

    /// Whether rewriting the bundle behind `id` failed with `e` and left `new`. An id that
    /// the bundle map does not hold gives `BundleIdMissing`, a bundle that is not known
    /// `BundleMissing`, and nothing is changed; else reading or writing one of the chunks in
    /// use failed.
    pub open spec fn rewrite_failed(&self, new: &Self, id: u32, e: RepositoryError) -> bool {
        if !self.bundle_map().dom().contains(id) {
            e == RepositoryError::BundleIdMissing(id) && new.same_storage(self)
        } else if !self.infos().dom().contains(self.bundle_map()[id]) {
            e == RepositoryError::BundleMissing(self.bundle_map()[id]) && new.same_storage(self)
        } else {
            exists|at: Self, i: int| #[trigger] self.rewrite_failed_at(&at, new, id, i, e)
        }
    }

    /// Writes every chunk in use of the bundle behind the small id `id` anew, into the open
    /// bundle of the bundle's mode. A chunk is in use if the index maps its fingerprint to
    /// this bundle at this place; nothing else of the bundle is read. The run fails only
    /// where the bundle is not there or reading or writing one of those chunks fails.
    pub fn rewrite_bundle(&mut self, id: u32) -> (r: Result<(), RepositoryError>)
        requires
            old(self).wf(),
        ensures
            final(self).wf(),
            old(self).consistent() ==> final(self).consistent(),
            final(self).same_settings(old(self)),
            final(self).keeps_hashes_of(old(self)),
            !old(self).bundle_map().dom().contains(id) ==> r == Err::<(), RepositoryError>(
                RepositoryError::BundleIdMissing(id),
            ) && final(self).same_storage(old(self)),
            old(self).bundle_map().dom().contains(id) && !old(self).infos().dom().contains(
                old(self).bundle_map()[id],
            ) ==> r == Err::<(), RepositoryError>(
                RepositoryError::BundleMissing(old(self).bundle_map()[id]),
            ) && final(self).same_storage(old(self)),
            r is Ok ==> forall|h: hash::Hash| #[trigger]
                old(self).holds(h) ==> final(self).holds(h),
            r matches Err(e) ==> storage_failure(e),
            r matches Err(e) ==> old(self).rewrite_failed(final(self), id, e),
            r is Ok ==> old(self).carried(final(self)),
            old(self).grown(final(self)),
            old(self).consistent() ==> !(r matches Err(RepositoryError::IndexCorrupt)),
            old(self).consistent() && r is Ok ==> final(self).waiting_in(id),
            r is Ok && old(self).writes_openly() ==> forall|base: Self| #[trigger]
                old(self).carries(&base) && base.keys() == old(self).keys() ==> final(self).carries(&base),
            old(self).bundle_map().dom().contains(id) && old(self).infos().dom().contains(
                old(self).bundle_map()[id],
            ) && old(self).unused(id) ==> r is Ok && final(self).same_storage(old(self)),
            old(self).stores_known() ==> final(self).stores_known(),
    {
        proof {
            self.lemma_wf();
        }
        let cid = match self.bundle_map.get(id) {
            Some(c) => c,
            None => {
                return Err(RepositoryError::BundleIdMissing(id));
            },
        };
        let mode = match self.bundles.get_bundle_info(&cid) {
            Some(info) => info.mode,
            None => {
                return Err(RepositoryError::BundleMissing(cid));
            },
        };
        let chunks = self.bundles.get_chunk_list(&cid).unwrap();
        let mut i: usize = 0;
        while i < chunks.len()
            invariant
                self.wf(),
                old(self).wf(),
                i <= chunks@.len(),
                chunks@.len() <= crate::bundle::MAX_CHUNKS,
                old(self).bundle_map().dom().contains(id),
                old(self).infos().dom().contains(old(self).bundle_map()[id]),
                cid == old(self).bundle_map()[id],
                mode == old(self).infos()[cid].mode,
                chunks@ == old(self).lists()[cid],
                old(self).carried(self),
                old(self).stores_known() ==> self.stores_known(),
                old(self).unused(id) ==> self.same_storage(old(self)),
                old(self).writes_openly() ==> forall|base: Self| #[trigger]
                    old(self).carries(&base) && base.keys() == old(self).keys() ==> self.carries(
                        &base,
                    ),
                old(self).consistent() ==> self.waiting_below(id, i as int),
                old(self).consistent() ==> self.consistent(),
                self.same_settings(old(self)),
                self.keeps_hashes_of(old(self)),
                forall|h: hash::Hash| #[trigger] old(self).holds(h) ==> self.holds(h),
            decreases chunks@.len() - i,
        {
            let entry = chunks[i];
            let live = match self.index.get(&entry.hash) {
                Some(loc) => loc.bundle == id && loc.chunk as usize == i,
                None => false,
            };
            let ghost start = *self;
            proof {
                old(self).lemma_wf();
                assert(self.bundle_map().contains_pair(id, cid));
                assert(self.lists().contains_pair(cid, chunks@));
                if old(self).consistent() && !live {
                    assert forall|h: hash::Hash| #[trigger]
                        self.index().dom().contains(h) && self.index()[h].bundle == id
                            && self.index()[h].chunk < i + 1 implies self.waits(h) by {
                        if self.index()[h].chunk == i {
                            assert(crate::repository::entry_ok(
                                self.bundle_map(),
                                self.lists(),
                                h,
                                self.index()[h],
                            ));
                        }
                    }
                }
            }
            if live {
                let data = match self.get_chunk(Location { bundle: id, chunk: i as u32 }) {
                    Ok(d) => d,
                    Err(e) => {
                        proof {
                            assert(start.was_read(self, cid, i as int, e));
                            assert(old(self).rewrite_failed_at(&start, self, id, i as int, e));
                        }
                        return Err(e);
                    },
                };
                if data.len() > u32::MAX as usize {
                    return Err(RepositoryError::BundleFormat);
                }
                let ghost before = *self;
                match self.put_chunk_override(mode, entry.hash, data.as_slice()) {
                    Ok(loc) => {
                        proof {
                            if old(self).writes_openly() {
                                assert forall|base: Self| #[trigger]
                                    old(self).carries(&base) && base.keys() == old(self).keys() implies self.carries(&base) by {
                                    assert(before.carries(&base));
                                    if base.stored(base.keys(), entry.hash) {
                                        assert(before.stored(base.keys(), entry.hash));
                                        assert(before.index()[entry.hash] == Location {
                                            bundle: id,
                                            chunk: i as u32,
                                        });
                                        assert(before.bundle_map()[id] == cid);
                                        assert(data@ == before.content(base.keys(), entry.hash));
                                    }
                                    before.lemma_written_carries(
                                        self,
                                        &base,
                                        mode,
                                        entry.hash,
                                        data@,
                                        loc,
                                    );
                                }
                            }
                            before.lemma_written_holds(self, mode, entry.hash, data@, loc);
                            assert forall|h: hash::Hash| #[trigger] old(self).holds(h) implies self.holds(
                                h,
                            ) by {
                                assert(before.holds(h));
                            }
                            before.lemma_written_carried(self, mode, entry.hash, data@, loc);
                            old(self).lemma_carried_twice(&before, self);
                            if old(self).consistent() {
                                assert forall|h: hash::Hash| #[trigger]
                                    self.index().dom().contains(h) && self.index()[h].bundle == id
                                        && self.index()[h].chunk < i + 1 implies self.waits(h) by {
                                    assert(before.bundle_map().dom().contains(id));
                                    assert(!self.fresh(&before, h));
                                    assert(before.index().dom().contains(h) && self.index()[h]
                                        == before.index()[h]);
                                    if before.index()[h].chunk == i {
                                        assert(crate::repository::entry_ok(
                                            before.bundle_map(),
                                            before.lists(),
                                            h,
                                            before.index()[h],
                                        ));
                                        assert(h == entry.hash);
                                    } else {
                                        assert(before.waits(h));
                                    }
                                }
                            }
                        }
                    },
                    Err(e) => {
                        proof {
                            assert(start.was_written(self, cid, i as int, mode, entry.hash, e));
                            assert(old(self).rewrite_failed_at(&start, self, id, i as int, e));
                            old(self).lemma_grown_twice(&before, self);
                        }
                        return Err(e);
                    },
                }
            }
            i += 1;
        }
        Ok(())
    }

    /// Whether every chunk that the index places in bundle `id` before place `upto` waits in
    /// an open bundle.
    pub open spec fn waiting_below(&self, id: u32, upto: int) -> bool {
        forall|h: hash::Hash| #[trigger]
            self.index().dom().contains(h) && self.index()[h].bundle == id && self.index()[h].chunk
                < upto ==> self.waits(h)
    }

    /// Whether every chunk that the index places in bundle `id` waits in an open bundle.
    pub open spec fn waiting_in(&self, id: u32) -> bool {
        forall|h: hash::Hash| #[trigger]
            self.index().dom().contains(h) && self.index()[h].bundle == id ==> self.waits(h)
    }

    /// Whether every chunk that the index places in one of `ids` waits in an open bundle.
    pub open spec fn waiting_all(&self, ids: Seq<u32>) -> bool {
        forall|h: hash::Hash| #[trigger]
            self.index().dom().contains(h) && ids.contains(self.index()[h].bundle)
                ==> self.waits(h)
    }

    /// What a vacuum run has planned: `mid` is the repository after its open bundles were
    /// flushed, `usage` is the analysis of every bundle of `mid`, and the report holds the
    /// rewrite set and the reclaimable bytes that follow from `usage`.
    pub open spec fn planned(
        &self,
        mid: &Self,
        usage: Seq<BundleAnalysis>,
        report: VacuumReport,
        ratio: u32,
        combine: bool,
    ) -> bool {
        &&& self.flushed(mid)
        &&& usage.len() == mid.bundle_rows().len()
        &&& forall|k: int| 0 <= k < usage.len() ==> #[trigger] mid.analysed(usage, k)
        &&& report.rewrite_bundles@ == rewrite_set(
            usage,
            ratio,
            combine,
            self.config().bundle_size,
            usage.len() as int,
        )
        &&& report.reclaim_space == reclaimable(usage, ratio, usage.len() as int)
    }

    /// Whether the bundles that `self` maps under `ids` are deleted in `new`: the bundle map
    /// holds none of the ids, and the bundle store neither header nor chunk list nor blob of
    /// the bundles that stood behind them.
    pub open spec fn emptied(&self, new: &Self, ids: Seq<u32>) -> bool {
        forall|id: u32| #[trigger]
            ids.contains(id) ==> {
                let cid = self.bundle_map()[id];
                &&& self.bundle_map().dom().contains(id)
                &&& !new.bundle_map().dom().contains(id)
                &&& !new.infos().dom().contains(cid)
                &&& !new.lists().dom().contains(cid)
                &&& !new.blobs().dom().contains(cid)
            }
    }

    /// Whether, of the bundles that `self` maps under `ids`, those under the first `upto`
    /// ids are deleted in `new`, and the others are mapped and known as they were.
    pub open spec fn deleting(&self, new: &Self, ids: Seq<u32>, upto: int) -> bool {
        forall|id: u32| #[trigger]
            ids.contains(id) ==> {
                let cid = self.bundle_map()[id];
                &&& self.bundle_map().dom().contains(id)
                &&& if ids.subrange(0, upto).contains(id) {
                    &&& !new.bundle_map().dom().contains(id)
                    &&& !new.infos().dom().contains(cid)
                    &&& !new.lists().dom().contains(cid)
                    &&& !new.blobs().dom().contains(cid)
                } else {
                    new.bundle_map().contains_pair(id, cid) && new.infos().dom().contains(cid)
                }
            }
    }

    /// Whether a vacuum run on the flushed and locked repository `self`, which knows all its
    /// bundles, came to a halt with `e` and left `new`: the analysis was `usage`; rewriting
    /// bundles of its rewrite set and publishing what was written had led to `at`, under
    /// the same configuration, keys and time; there rewriting a bundle of the rewrite set
    /// failed, or flushing failed, or after flushing an index entry still pointed into the
    /// rewrite set, which happens only where the index was not sound.
    pub open spec fn halted(
        &self,
        at: &Self,
        usage: Seq<BundleAnalysis>,
        new: &Self,
        ratio: u32,
        combine: bool,
        e: RepositoryError,
    ) -> bool {
        let ids = rewrite_set(
            usage,
            ratio,
            combine,
            self.config().bundle_size,
            usage.len() as int,
        );
        &&& self.plan_of(usage)
        &&& self.carried(at)
        &&& self.grown(at)
        &&& at.same_terms(self)
        &&& {
            ||| exists|j: int| 0 <= j < ids.len() && #[trigger] at.rewrite_failed(new, ids[j], e)
            ||| at.flush_failed(new, Err::<(), RepositoryError>(e))
            ||| e == RepositoryError::IndexCorrupt && at.flushed(new) && !new.clear_of(ids)
                && !self.consistent()
        }
    }

    /// Whether a vacuum run on the flushed and locked repository `self` failed with `e` and
    /// left `new`. Where the bundle map holds a bundle that is not known, the analysis
    /// fails with `BundleMissing` and nothing is changed. Else the run fails only with
    /// `force`, before anything is deleted.
    pub open spec fn stopped(
        &self,
        new: &Self,
        ratio: u32,
        combine: bool,
        force: bool,
        e: RepositoryError,
    ) -> bool {
        if !self.all_known() {
            new.same_storage(self) && exists|id: u32|
                self.bundle_map().dom().contains(id) && !self.infos().dom().contains(
                    #[trigger] self.bundle_map()[id],
                ) && e == RepositoryError::BundleMissing(self.bundle_map()[id])
        } else {
            force && self.grown(new) && exists|at: Self, usage: Seq<BundleAnalysis>| #[trigger]
                self.halted(&at, usage, new, ratio, combine, e)
        }
    }

    /// Whether vacuum failed with `e` and left `new`: flushing the open bundles failed; or
    /// another lock was in the way; or the run failed under its lock, and the dirty mark
    /// stays.
    pub open spec fn vacuum_failed(
        &self,
        new: &Self,
        ratio: u32,
        combine: bool,
        force: bool,
        e: RepositoryError,
    ) -> bool {
        ||| self.flush_failed(new, Err::<(), RepositoryError>(e)) && new.is_dirty()
            == self.is_dirty()
        ||| is_lock_error(e) && self.flushed(new) && new.is_dirty() == self.is_dirty()
            && crate::lock::blocked(self.lock_files(), true)
        ||| !crate::lock::blocked(self.lock_files(), true) && new.is_dirty() && exists|
            mid: Self,
            done: Self,
        | #[trigger] self.ran(&mid, &done, new, ratio, combine, force, e)
    }

    /// Whether a vacuum run flushed `self`, which gave `mid`, failed under its lock with
    /// `e`, which gave `done`, and left the bundles and the index of `done` in `new`.
    pub open spec fn ran(
        &self,
        mid: &Self,
        done: &Self,
        new: &Self,
        ratio: u32,
        combine: bool,
        force: bool,
        e: RepositoryError,
    ) -> bool {
        self.flushed(mid) && mid.stopped(done, ratio, combine, force, e) && new.same_storage(done)
    }

    /// What a vacuum run that ends well has done: no other lock was held, the dirty mark is
    /// cleared, and the report holds the plan that follows from the analysis of the flushed
    /// repository. Without `force` nothing else has changed. With it, no index entry points
    /// into the rewrite set, the bundles of the rewrite set are deleted from the bundle
    /// map and the bundle store, and the bundle map and the cache are saved.
    pub open spec fn vacuumed(
        &self,
        new: &Self,
        report: VacuumReport,
        ratio: u32,
        combine: bool,
        force: bool,
    ) -> bool {
        &&& !new.is_dirty()
        &&& self.lock_files().len() == 0
        &&& exists|mid: Self, usage: Seq<BundleAnalysis>| #[trigger]
            self.planned(&mid, usage, report, ratio, combine) && (!force ==> new.same_storage(
                &mid,
            )) && (force ==> mid.emptied(new, report.rewrite_bundles@))
        &&& force ==> {
            &&& new.clear_of(report.rewrite_bundles@)
            &&& forall|k: int|
                0 <= k < report.rewrite_bundles@.len() ==> !new.bundle_map().dom().contains(
                    #[trigger] report.rewrite_bundles@[k],
                )
            &&& crate::bundle_map::rows_map(new.saved_map()) == new.bundle_map()
            &&& crate::repository::cache_matches(new.saved_cache(), new.infos(), new.lists())
            &&& self.spared(new, report.rewrite_bundles@)
        }
    }

    /// Whether every bundle that `self` maps outside `ids` is mapped in `new` as it was, with
    /// the chunk list, the header and the blob that it had.
    pub open spec fn spared(&self, new: &Self, ids: Seq<u32>) -> bool {
        forall|id: u32| #[trigger]
            self.bundle_map().dom().contains(id) && !ids.contains(id) ==> {
                let cid = self.bundle_map()[id];
                &&& new.bundle_map().contains_pair(id, cid)
                &&& self.lists().dom().contains(cid) ==> new.lists().contains_pair(
                    cid,
                    self.lists()[cid],
                )
                &&& self.infos().dom().contains(cid) ==> new.infos().contains_pair(
                    cid,
                    self.infos()[cid],
                )
                &&& self.blobs().dom().contains(cid) ==> new.blobs().contains_pair(
                    cid,
                    self.blobs()[cid],
                )
            }
    }

    /// Vacuum safety: after a run with `force` that ends well on a repository whose index
    /// is sound, every fingerprint that was indexed is indexed still, none of them points
    /// into a bundle that was deleted, and each points at a chunk with that fingerprint in
    /// a bundle that the bundle map holds.
    pub proof fn lemma_vacuum_safety(
        &self,
        new: &Self,
        report: VacuumReport,
        ratio: u32,
        combine: bool,
        h: hash::Hash,
    )
        requires
            self.consistent(),
            new.consistent(),
            new.keeps_hashes_of(self),
            self.vacuumed(new, report, ratio, combine, true),
            self.index().dom().contains(h),
        ensures
            new.index().dom().contains(h),
            !report.rewrite_bundles@.contains(new.index()[h].bundle),
            new.bundle_map().dom().contains(new.index()[h].bundle),
            new.lists()[new.bundle_map()[new.index()[h].bundle]][new.index()[h].chunk as int].hash
                == h,
    {
        assert(new.index().dom().contains(h));
        assert(crate::repository::entry_ok(new.bundle_map(), new.lists(), h, new.index()[h]));
    }

    /// Reclaims space. The open bundles are flushed and the repository is locked for this
    /// process alone and marked dirty. Every bundle is analysed, and the rewrite set is
    /// picked: the bundles of which at most `ratio` hundredths are in use and, if `combine`
    /// is set, the small bundles of a mode that has two of them or more. Without `force`
    /// that is all. With it, every chunk in use of a bundle in the rewrite set is written
    /// anew and the open bundles are flushed; then no index entry may point into the
    /// rewrite set, else the run ends with `IndexCorrupt` and deletes nothing; then the
    /// bundles of the rewrite set are deleted and the bundle map and the cache are saved.
    /// The lock is given back whatever happens. The dirty mark stays if the run fails under
    /// the lock, and nothing is deleted then. A run without `force` on a repository without
    /// open bundles ends well exactly when no other lock is held and the bundle store knows
    /// every bundle of the bundle map, and so does a run with `force` that finds nothing in
    /// use in its rewrite set. A run that ends well on a repository that writes without
    /// compression, and whose open bundles agree with what is stored, keeps the bytes of
    /// every chunk that could be read without a compressor: each is stored still, under its
    /// fingerprint, with the same bytes.
    pub fn vacuum(&mut self, ratio: u32, combine: bool, force: bool) -> (r: Result<
        VacuumReport,
        RepositoryError,
    >)
        requires
            old(self).wf(),
        ensures
            final(self).wf(),
            old(self).consistent() ==> final(self).consistent(),
            final(self).keeps_hashes_of(old(self)),
            final(self).config() == old(self).config(),
            final(self).keys() == old(self).keys(),
            final(self).time() == old(self).time(),
            final(self).saved_config() == old(self).saved_config(),
            final(self).lock_files() == old(self).lock_files(),
            r matches Ok(report) ==> old(self).vacuumed(final(self), report, ratio, combine, force),
            old(self).consistent() ==> !(r matches Err(RepositoryError::IndexCorrupt)),
            r matches Err(e) ==> if is_lock_error(e) {
                &&& old(self).flushed(final(self))
                &&& final(self).is_dirty() == old(self).is_dirty()
                &&& crate::lock::blocked(old(self).lock_files(), true)
                &&& e == (if crate::lock::blocked_by_live(
                    old(self).lock_files(),
                    true,
                    old(self).time(),
                ) {
                    RepositoryError::LockBusy
                } else {
                    RepositoryError::LockStale
                })
            } else {
                storage_failure(e)
            },
            r matches Err(e) ==> old(self).vacuum_failed(final(self), ratio, combine, force, e),
            old(self).stores_known() ==> final(self).stores_known(),
            r is Err ==> old(self).grown(final(self)),
            r is Ok && old(self).carries(old(self)) && old(self).writes_openly() ==> final(self).keeps_content_of(old(self)),
            old(self).writer(BundleMode::Data) is None && old(self).writer(BundleMode::Meta) is None
                ==> {
                &&& crate::lock::blocked(old(self).lock_files(), true) <==> (r matches Err(e)
                    && is_lock_error(e))
                &&& !crate::lock::blocked(old(self).lock_files(), true) && old(self).all_known()
                    && (!force || old(self).idle_plan(ratio, combine)) ==> r is Ok
                &&& !crate::lock::blocked(old(self).lock_files(), true) && !old(self).all_known()
                    ==> r is Err
            },
    {
        match self.flush() {
            Ok(()) => {},
            Err(e) => {
                assert(old(self).vacuum_failed(self, ratio, combine, force, e));
                return Err(e);
            },
        }
        let ghost mid = *self;
        proof {
            if old(self).carries(old(self)) {
                old(self).lemma_flushed_carries(&mid, old(self));
            }
        }
        let handle = match self.lock(true) {
            Ok(h) => h,
            Err(e) => {
                assert(old(self).vacuum_failed(self, ratio, combine, force, e));
                return Err(e);
            },
        };
        proof {
            assert(mid.lock_files().len() == 0) by {
                if mid.lock_files().len() > 0 {
                    assert(crate::lock::conflicts(mid.lock_files()[0], true));
                }
            }
        }
        self.set_dirty(true);
        let ghost locked = *self;
        proof {
            if old(self).writer(BundleMode::Data) is None && old(self).writer(BundleMode::Meta)
                is None {
                assert(mid.same_storage(old(self)));
                assert(locked.all_known() == old(self).all_known());
                assert(locked.bundle_rows() == old(self).bundle_rows());
                if old(self).idle_plan(ratio, combine) {
                    assert forall|usage: Seq<BundleAnalysis>| #[trigger]
                        locked.plan_of(usage) implies locked.clear_of(
                        rewrite_set(
                            usage,
                            ratio,
                            combine,
                            locked.config().bundle_size,
                            usage.len() as int,
                        ),
                    ) by {
                        assert forall|k: int| 0 <= k < usage.len() implies #[trigger] old(self).analysed(usage, k) by {
                            assert(locked.analysed(usage, k));
                        }
                        assert(old(self).plan_of(usage));
                    }
                }
            }
        }
        proof {
            if old(self).carries(old(self)) {
                mid.lemma_same_carries(&locked, old(self));
            }
        }
        let r = self.vacuum_locked(ratio, combine, force, Ghost(*old(self)));
        let ghost done = *self;
        let was = self.unlock(handle);
        proof {
            assert(done.lock_files() =~= seq![handle.file]);
            assert(done.lock_files()[0] == handle.file);
            assert(was);
            let k = choose|k: int|
                crate::lock::is_first(done.lock_files(), handle.file, k) && self.lock_files()
                    == #[trigger] done.lock_files().remove(k);
            assert(self.lock_files() =~= Seq::<crate::lock::LockFile>::empty());
            assert(old(self).lock_files() =~= Seq::<crate::lock::LockFile>::empty());
        }
        match r {
            Ok((report, usage)) => {
                self.set_dirty(false);
                proof {
                    if old(self).carries(old(self)) && old(self).writes_openly() {
                        assert(locked.writes_openly());
                        assert(done.carries(old(self)));
                        done.lemma_same_carries(self, old(self));
                    }
                    assert forall|k: int| 0 <= k < usage@.len() implies #[trigger] mid.analysed(
                        usage@,
                        k,
                    ) by {
                        assert(locked.analysed(usage@, k));
                    }
                    assert(old(self).planned(&mid, usage@, report, ratio, combine));
                    assert(!force ==> self.same_storage(&mid));
                    if force {
                        assert(self.clear_of(report.rewrite_bundles@)) by {
                            assert(done.clear_of(report.rewrite_bundles@));
                            assert(self.index() == done.index());
                        }
                        assert(mid.emptied(self, report.rewrite_bundles@)) by {
                            assert(locked.emptied(&done, report.rewrite_bundles@));
                        }
                        assert(self.bundle_map() == done.bundle_map());
                        assert(self.saved_map() == done.saved_map());
                        assert(self.saved_cache() == done.saved_cache());
                        assert(self.infos() == done.infos());
                        assert(self.lists() == done.lists());
                        assert(self.blobs() == done.blobs());
                        old(self).lemma_flushed_carried(&mid);
                        assert(old(self).spared(self, report.rewrite_bundles@)) by {
                            assert(locked.spared(&done, report.rewrite_bundles@));
                            assert forall|id: u32| #[trigger]
                                old(self).bundle_map().dom().contains(id)
                                    && !report.rewrite_bundles@.contains(id) implies {
                                let cid = old(self).bundle_map()[id];
                                &&& self.bundle_map().contains_pair(id, cid)
                                &&& old(self).lists().dom().contains(cid)
                                    ==> self.lists().contains_pair(cid, old(self).lists()[cid])
                                &&& old(self).infos().dom().contains(cid)
                                    ==> self.infos().contains_pair(cid, old(self).infos()[cid])
                                &&& old(self).blobs().dom().contains(cid)
                                    ==> self.blobs().contains_pair(cid, old(self).blobs()[cid])
                            } by {
                                let cid = old(self).bundle_map()[id];
                                assert(mid.bundle_map().contains_pair(id, cid));
                                assert(locked.bundle_map().dom().contains(id));
                                if old(self).lists().dom().contains(cid) {
                                    assert(mid.lists().contains_pair(cid, old(self).lists()[cid]));
                                }
                                if old(self).infos().dom().contains(cid) {
                                    assert(mid.infos().contains_pair(cid, old(self).infos()[cid]));
                                }
                                if old(self).blobs().dom().contains(cid) {
                                    assert(mid.blobs().contains_pair(cid, old(self).blobs()[cid]));
                                }
                            }
                        }
                    }
                    assert(old(self).vacuumed(self, report, ratio, combine, force));
                }
                Ok(report)
            },
            Err(e) => {
                proof {
                    assert(locked.stopped(&done, ratio, combine, force, e));
                    assert(locked.all_known() == mid.all_known());
                    if mid.all_known() {
                        let (at, usage) = choose|at: Self, usage: Seq<BundleAnalysis>| #[trigger]
                            locked.halted(&at, usage, &done, ratio, combine, e);
                        assert forall|k: int| 0 <= k < usage.len() implies #[trigger] mid.analysed(
                            usage,
                            k,
                        ) by {
                            assert(locked.analysed(usage, k));
                        }
                        assert(mid.plan_of(usage));
                        assert(mid.carried(&at));
                        assert(mid.halted(&at, usage, &done, ratio, combine, e));
                    }
                    assert(mid.stopped(&done, ratio, combine, force, e));
                    assert(old(self).ran(&mid, &done, self, ratio, combine, force, e));
                    assert(old(self).vacuum_failed(self, ratio, combine, force, e));
                    assert(mid.grown(self));
                    old(self).lemma_grown_twice(&mid, self);
                }
                Err(e)
            },
        }
    }

    /// What a vacuum run has done to a flushed and locked repository `self` when it ends
    /// well: the plan follows from the analysis `usage` of `self`; without `force` nothing
    /// is changed, with it the rewrite set is gone from the bundle map and no index entry
    /// points into it.
    pub open spec fn planned_from(
        &self,
        new: &Self,
        usage: Seq<BundleAnalysis>,
        report: VacuumReport,
        ratio: u32,
        combine: bool,
        force: bool,
    ) -> bool {
        &&& usage.len() == self.bundle_rows().len()
        &&& forall|k: int| 0 <= k < usage.len() ==> #[trigger] self.analysed(usage, k)
        &&& report.rewrite_bundles@ == rewrite_set(
            usage,
            ratio,
            combine,
            self.config().bundle_size,
            usage.len() as int,
        )
        &&& report.reclaim_space == reclaimable(usage, ratio, usage.len() as int)
        &&& !force ==> new.same_storage(self)
    }

    /// The steps of a vacuum run between taking the lock and giving it back.
    fn vacuum_locked(
        &mut self,
        ratio: u32,
        combine: bool,
        force: bool,
        Ghost(base): Ghost<Self>,
    ) -> (r: Result<(VacuumReport, Ghost<Seq<BundleAnalysis>>), RepositoryError>)
        requires
            old(self).wf(),
        ensures
            r is Ok && old(self).writes_openly() && old(self).carries(&base) && base.keys() == old(self).keys() ==> final(self).carries(&base),
            final(self).wf(),
            old(self).consistent() ==> final(self).consistent(),
            final(self).keeps_hashes_of(old(self)),
            final(self).config() == old(self).config(),
            final(self).keys() == old(self).keys(),
            final(self).time() == old(self).time(),
            final(self).saved_config() == old(self).saved_config(),
            final(self).lock_files() == old(self).lock_files(),
            final(self).is_dirty() == old(self).is_dirty(),
            r matches Err(e) ==> storage_failure(e),
            r matches Err(e) ==> old(self).stopped(final(self), ratio, combine, force, e),
            old(self).stores_known() ==> final(self).stores_known(),
            old(self).all_known() && old(self).writer(BundleMode::Data) is None && old(self).writer(BundleMode::Meta) is None && old(self).idle_plan(ratio, combine) ==> r is Ok,
            r is Err ==> old(self).grown(final(self)),
            r is Ok ==> old(self).all_known(),
            !force && old(self).all_known() ==> r is Ok,
            old(self).consistent() ==> !(r matches Err(RepositoryError::IndexCorrupt)),
            r matches Ok((report, usage)) ==> {
                &&& old(self).planned_from(final(self), usage@, report, ratio, combine, force)
                &&& force ==> {
                    &&& old(self).emptied(final(self), report.rewrite_bundles@)
                    &&& final(self).clear_of(report.rewrite_bundles@)
                    &&& forall|k: int|
                        0 <= k < report.rewrite_bundles@.len() ==> !final(self).bundle_map().dom().contains(#[trigger] report.rewrite_bundles@[k])
                    &&& crate::bundle_map::rows_map(final(self).saved_map()) == final(self).bundle_map()
                    &&& crate::repository::cache_matches(
                        final(self).saved_cache(),
                        final(self).infos(),
                        final(self).lists(),
                    )
                    &&& old(self).spared(final(self), report.rewrite_bundles@)
                }
            },
    {
        let usage = match self.analyze_usage() {
            Ok(u) => u,
            Err(e) => {
                proof {
                    let k = choose|k: int|
                        0 <= k < self.bundle_rows().len() && e == RepositoryError::BundleMissing(
                            (#[trigger] self.bundle_rows()[k]).bundle,
                        ) && !self.infos().dom().contains(self.bundle_rows()[k].bundle)
                            && self.bundle_map().contains_pair(
                            self.bundle_rows()[k].id,
                            self.bundle_rows()[k].bundle,
                        );
                    let id = self.bundle_rows()[k].id;
                    assert(self.bundle_map().dom().contains(id) && !self.infos().dom().contains(
                        self.bundle_map()[id],
                    ) && e == RepositoryError::BundleMissing(self.bundle_map()[id]));
                }
                return Err(e);
            },
        };
        let report = select_rewrite(&usage, ratio, combine, self.get_config().bundle_size);
        if !force {
            return Ok((report, Ghost(usage@)));
        }
        let ghost ids = report.rewrite_bundles@;
        proof {
            lemma_rewrite_set(
                usage@,
                ratio,
                combine,
                self.config().bundle_size,
                usage@.len() as int,
            );
            assert forall|id: u32| ids.contains(id) implies #[trigger] self.bundle_map().dom().contains(
                id,
            ) by {
                let j = choose|j: int|
                    0 <= j < usage@.len() && chosen(
                        usage@,
                        j,
                        ratio,
                        combine,
                        self.config().bundle_size,
                    ) && (#[trigger] usage@[j]).id == id;
                assert(self.analysed(usage@, j));
            }
            assert(ids.subrange(0, 0) =~= Seq::<u32>::empty());
        }
        let mut k: usize = 0;
        while k < report.rewrite_bundles.len()
            invariant
                self.wf(),
                old(self).wf(),
                ids == report.rewrite_bundles@,
                ids == rewrite_set(
                    usage@,
                    ratio,
                    combine,
                    old(self).config().bundle_size,
                    usage@.len() as int,
                ),
                old(self).plan_of(usage@),
                old(self).stores_known() ==> self.stores_known(),
                old(self).clear_of(ids) ==> self.same_storage(old(self)),
                force,
                old(self).all_known(),
                old(self).grown(self),
                old(self).writes_openly() && old(self).carries(&base) && base.keys() == old(self).keys() ==> self.carries(&base),
                k <= report.rewrite_bundles@.len(),
                old(self).consistent() ==> self.consistent(),
                self.same_settings(old(self)),
                self.keeps_hashes_of(old(self)),
                old(self).carried(self),
                forall|id: u32| ids.contains(id) ==> #[trigger] old(self).bundle_map().dom().contains(
                    id,
                ),
                old(self).consistent() ==> self.waiting_all(ids.subrange(0, k as int)),
            decreases report.rewrite_bundles@.len() - k,
        {
            let ghost before = *self;
            let id = report.rewrite_bundles[k];
            match self.rewrite_bundle(id) {
                Ok(()) => {},
                Err(e) => {
                    proof {
                        old(self).lemma_grown_twice(&before, self);
                        assert(before.rewrite_failed(self, ids[k as int], e));
                        assert(old(self).halted(&before, usage@, self, ratio, combine, e));
                    }
                    return Err(e);
                },
            }
            proof {
                if old(self).writes_openly() && old(self).carries(&base) && base.keys() == old(self).keys() {
                    assert(before.writes_openly());
                    assert(before.carries(&base) && base.keys() == before.keys());
                    assert(self.carries(&base));
                }
                old(self).lemma_carried_twice(&before, self);
                old(self).lemma_grown_twice(&before, self);
                assert(ids.contains(id));
                if old(self).consistent() {
                    let done = ids.subrange(0, k as int);
                    let next = ids.subrange(0, k + 1);
                    assert forall|h: hash::Hash| #[trigger]
                        self.index().dom().contains(h) && next.contains(
                            self.index()[h].bundle,
                        ) implies self.waits(h) by {
                        let b = self.index()[h].bundle;
                        let j = choose|j: int| 0 <= j < next.len() && next[j] == b;
                        assert(ids[j] == b);
                        assert(ids.contains(b));
                        assert(old(self).bundle_map().dom().contains(b));
                        assert(before.bundle_map().dom().contains(b));
                        assert(!self.fresh(&before, h));
                        assert(before.index().dom().contains(h) && self.index()[h]
                            == before.index()[h]);
                        if b != id {
                            assert(j < k);
                            assert(done[j] == b);
                            assert(done.contains(b));
                            assert(before.waits(h));
                        }
                    }
                }
            }
            k += 1;
        }
        let ghost rewritten = *self;
        match self.flush() {
            Ok(()) => {},
            Err(e) => {
                proof {
                    old(self).lemma_grown_twice(&rewritten, self);
                    assert(old(self).halted(&rewritten, usage@, self, ratio, combine, e));
                }
                return Err(e);
            },
        }
        proof {
            if rewritten.carries(&base) {
                rewritten.lemma_flushed_carries(self, &base);
            }
            assert(ids.subrange(0, ids.len() as int) =~= ids);
            rewritten.lemma_flushed_carried(self);
            if old(self).consistent() {
                assert forall|h: hash::Hash| #[trigger]
                    self.index().dom().contains(h) implies !ids.contains(
                    self.index()[h].bundle,
                ) by {
                    let b = self.index()[h].bundle;
                    if ids.contains(b) {
                        assert(old(self).bundle_map().dom().contains(b));
                        assert(rewritten.bundle_map().dom().contains(b));
                        assert(!self.fresh(&rewritten, h));
                        assert(rewritten.index().dom().contains(h) && self.index()[h]
                            == rewritten.index()[h]);
                        assert(rewritten.waits(h));
                    }
                }
            }
        }
        if !self.check_clear_of(&report.rewrite_bundles) {
            proof {
                old(self).lemma_grown_twice(&rewritten, self);
                assert(old(self).halted(
                    &rewritten,
                    usage@,
                    self,
                    ratio,
                    combine,
                    RepositoryError::IndexCorrupt,
                ));
            }
            return Err(RepositoryError::IndexCorrupt);
        }
        proof {
            old(self).lemma_carried_twice(&rewritten, self);
            assert(old(self).spared(self, report.rewrite_bundles@));
            assert(ids.subrange(0, 0) =~= Seq::<u32>::empty());
            assert forall|x: u32| #[trigger] ids.contains(x) implies old(self).bundle_map().dom().contains(
                x,
            ) && self.bundle_map().contains_pair(x, old(self).bundle_map()[x])
                && self.infos().dom().contains(old(self).bundle_map()[x]) by {
                assert(old(self).bundle_map().dom().contains(x));
                assert(old(self).infos().dom().contains(old(self).bundle_map()[x]));
            }
            assert(old(self).deleting(self, ids, 0));
        }
        let mut k: usize = 0;
        while k < report.rewrite_bundles.len()
            invariant
                self.wf(),
                old(self).wf(),
                k <= report.rewrite_bundles@.len(),
                old(self).consistent() ==> self.consistent(),
                self.keeps_hashes_of(old(self)),
                self.config() == old(self).config(),
                self.keys() == old(self).keys(),
                self.time() == old(self).time(),
                self.saved_config() == old(self).saved_config(),
                self.lock_files() == old(self).lock_files(),
                self.is_dirty() == old(self).is_dirty(),
                self.clear_of(report.rewrite_bundles@),
                forall|j: int|
                    0 <= j < k ==> !self.bundle_map().dom().contains(
                        #[trigger] report.rewrite_bundles@[j],
                    ),
                old(self).spared(self, report.rewrite_bundles@),
                ids == report.rewrite_bundles@,
                old(self).stores_known() ==> self.stores_known(),
                old(self).deleting(self, ids, k as int),
                old(self).writes_openly() && old(self).carries(&base) && base.keys() == old(self).keys() ==> self.carries(&base),
            decreases report.rewrite_bundles@.len() - k,
        {
            let id = report.rewrite_bundles[k];
            let ghost before = *self;
            proof {
                assert(report.rewrite_bundles@.contains(id));
                before.lemma_wf();
            }
            match self.delete_bundle(id) {
                Ok(()) => {},
                Err(RepositoryError::BundleIdMissing(_)) => {},
                Err(e) => {
                    assert(false);
                    return Err(e);
                },
            }
            proof {
                if before.carries(&base) {
                    before.lemma_deleted_carries(self, &base, id);
                }
                let done = ids.subrange(0, k as int);
                let next = ids.subrange(0, k + 1);
                assert(next.drop_last() =~= done);
                assert(next.last() == id);
                assert forall|x: u32| next.contains(x) <==> done.contains(x) || x == id by {
                    if next.contains(x) {
                        let j = choose|j: int| 0 <= j < next.len() && next[j] == x;
                        if j < k {
                            assert(done[j] == x);
                        }
                    }
                    if done.contains(x) {
                        let j = choose|j: int| 0 <= j < done.len() && done[j] == x;
                        assert(next[j] == x);
                    }
                    assert(next[k as int] == id);
                }
                assert forall|x: u32| #[trigger] ids.contains(x) implies {
                    let cid = old(self).bundle_map()[x];
                    &&& old(self).bundle_map().dom().contains(x)
                    &&& if next.contains(x) {
                        &&& !self.bundle_map().dom().contains(x)
                        &&& !self.infos().dom().contains(cid)
                        &&& !self.lists().dom().contains(cid)
                        &&& !self.blobs().dom().contains(cid)
                    } else {
                        self.bundle_map().contains_pair(x, cid) && self.infos().dom().contains(cid)
                    }
                } by {
                    let cid = old(self).bundle_map()[x];
                    if !done.contains(x) && x != id && before.bundle_map().dom().contains(id) {
                        assert(before.bundle_map().contains_pair(x, cid));
                        assert(before.bundle_map()[id] != before.bundle_map()[x]);
                    }
                }
                assert(old(self).deleting(self, ids, k + 1));
            }
            proof {
                assert forall|other: u32| #[trigger]
                    old(self).bundle_map().dom().contains(other) && !report.rewrite_bundles@.contains(
                        other,
                    ) implies {
                    let cid = old(self).bundle_map()[other];
                    &&& self.bundle_map().contains_pair(other, cid)
                    &&& old(self).lists().dom().contains(cid) ==> self.lists().contains_pair(
                        cid,
                        old(self).lists()[cid],
                    )
                    &&& old(self).infos().dom().contains(cid) ==> self.infos().contains_pair(
                        cid,
                        old(self).infos()[cid],
                    )
                    &&& old(self).blobs().dom().contains(cid) ==> self.blobs().contains_pair(
                        cid,
                        old(self).blobs()[cid],
                    )
                } by {
                    let cid = old(self).bundle_map()[other];
                    assert(before.bundle_map().contains_pair(other, cid));
                    assert(other != id);
                    if before.bundle_map().dom().contains(id) {
                        assert(before.bundle_map()[id] != before.bundle_map()[other]);
                    }
                }
            }
            k += 1;
        }
        proof {
            assert(ids.subrange(0, ids.len() as int) =~= ids);
        }
        let ghost deleted = *self;
        let _ = self.save_bundle_map();
        self.save_cache();
        proof {
            if deleted.carries(&base) {
                deleted.lemma_same_carries(self, &base);
            }
        }
        Ok((report, Ghost(usage@)))
    }
}

} // verus!
