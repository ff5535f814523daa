use crate::bundle::{
    chunk_bytes, chunk_in_range, lemma_chunk_start_monotonic, lemma_chunk_start_step, total_len,
    BundleMode, ChunkEntry, MAX_CHUNKS,
};
use crate::bundle::{BundleMeta, StoredBundle};
use crate::bundle_db::{bundles_list, bundles_unique, metas_list};
use crate::bundle_map::{rows_injective, rows_map, BundleId};
use crate::codec::{key_ready, lemma_unsealed, unsealed, Compressor};
use crate::crypto::SecretKey;
use crate::error::RepositoryError;
use crate::hash;
use crate::index::{lemma_apply_chunks, Location};
use crate::repository::{
    cache_matches, entry_ok, ids_spare, known_as, lemma_spare_free, local_sound, meta_lists,
    opens, LocalState, RemoteState, Repository,
};
use vstd::prelude::*;

verus! {

impl<C: Compressor> Repository<C> {
    /// Whether the chunk at `loc` can be read with `keys` and without a compressor: its
    /// bundle is mapped, known and stored, names no compression, its blob can be unsealed,
    /// and the chunk lies within what comes out.
    pub open spec fn readable_at(&self, keys: Map<Seq<u8>, SecretKey>, loc: Location) -> bool {
        let cid = self.bundle_map()[loc.bundle];
        &&& self.bundle_map().dom().contains(loc.bundle)
        &&& self.lists().dom().contains(cid)
        &&& self.infos().dom().contains(cid)
        &&& self.blobs().dom().contains(cid)
        &&& self.infos()[cid].compression is None
        &&& unsealed(keys, self.blobs()[cid], self.infos()[cid].encryption) is Ok
        &&& chunk_in_range(
            unsealed(keys, self.blobs()[cid], self.infos()[cid].encryption)->Ok_0,
            self.lists()[cid],
            loc.chunk as int,
        )
    }

    /// The bytes of the chunk at `loc`, as they lie in the unsealed blob of its bundle.
    pub open spec fn bytes_at(&self, keys: Map<Seq<u8>, SecretKey>, loc: Location) -> Seq<u8> {
        let cid = self.bundle_map()[loc.bundle];
        chunk_bytes(
            unsealed(keys, self.blobs()[cid], self.infos()[cid].encryption)->Ok_0,
            self.lists()[cid],
            loc.chunk as int,
        )
    }

    /// Whether the chunk with fingerprint `h` is indexed where it can be read with `keys`
    /// and without a compressor.
    pub open spec fn stored(&self, keys: Map<Seq<u8>, SecretKey>, h: hash::Hash) -> bool {
        self.index().dom().contains(h) && self.readable_at(keys, self.index()[h])
    }

    /// The bytes that are stored for the fingerprint `h`.
    pub open spec fn content(&self, keys: Map<Seq<u8>, SecretKey>, h: hash::Hash) -> Seq<u8> {
        self.bytes_at(keys, self.index()[h])
    }

    /// Whether every chunk that `base` stores is stored here with the same bytes.
    pub open spec fn keeps_content_of(&self, base: &Self) -> bool {
        forall|h: hash::Hash| #[trigger]
            base.stored(base.keys(), h) ==> self.stored(base.keys(), h) && self.content(
                base.keys(),
                h,
            ) == base.content(base.keys(), h)
    }

    /// Whether the chunk at place `p` of the open bundle of `mode` has the bytes that `base`
    /// stores for its fingerprint, if it stores any.
    pub open spec fn waiting_holds(&self, base: &Self, mode: BundleMode, p: int) -> bool {
        base.stored(base.keys(), self.pending(mode)[p].hash) ==> chunk_bytes(
            self.pending_data(mode),
            self.pending(mode),
            p,
        ) == base.content(base.keys(), self.pending(mode)[p].hash)
    }

    /// Whether the open bundle of `mode`, if there is one, will be stored without
    /// compression and for a recipient whose secret key `base` holds, and every chunk in
    /// it has the bytes that `base` stores for its fingerprint.
    pub open spec fn waiting_content(&self, base: &Self, mode: BundleMode) -> bool {
        &&& self.writer(mode) matches Some(w) ==> w.compression() is None && key_ready(
            base.keys(),
            w.encryption(),
        )
        &&& forall|p: int|
            0 <= p < self.pending(mode).len() ==> #[trigger] self.waiting_holds(base, mode, p)
    }

    /// Whether this repository carries the content of `base`: what `base` stores is stored
    /// here with the same bytes, and what waits in the open bundles agrees with it.
    pub open spec fn carries(&self, base: &Self) -> bool {
        &&& self.keeps_content_of(base)
        &&& self.waiting_content(base, BundleMode::Data)
        &&& self.waiting_content(base, BundleMode::Meta)
    }

    /// Whether new bundles are written without compression and sealed at most for a
    /// recipient whose secret key the key store holds.
    pub open spec fn writes_openly(&self) -> bool {
        self.config().compression is None && key_ready(self.keys(), self.config().encryption)
    }

    /// What is stored reads as its content: where reading the chunk with fingerprint `h`
    /// gives bytes, they are the bytes that are stored for `h`.
    pub proof fn lemma_stored_reads(&self, h: hash::Hash, data: Vec<u8>)
        requires
            self.stored(self.keys(), h),
            self.read_by_hash(h, Ok::<Vec<u8>, RepositoryError>(data)),
        ensures
            data@ == self.content(self.keys(), h),
    {
    }

    /// Keeping the content keeps the bytes: if every chunk that `self` stores is stored in
    /// `new` with the same bytes, as after a vacuum run, then a chunk that `self` stores
    /// reads in `new` as it read in `self`.
    pub proof fn lemma_kept_bytes(&self, new: &Self, h: hash::Hash, before: Vec<u8>, after: Vec<u8>)
        requires
            new.keeps_content_of(self),
            new.keys() == self.keys(),
            self.stored(self.keys(), h),
            self.read_by_hash(h, Ok::<Vec<u8>, RepositoryError>(before)),
            new.read_by_hash(h, Ok::<Vec<u8>, RepositoryError>(after)),
        ensures
            after@ == before@,
    {
        self.lemma_stored_reads(h, before);
        new.lemma_stored_reads(h, after);
    }

    /// Giving up a repository and opening it again keeps the content. If what `self` saved
    /// is what it holds, as after a flush, and `repo` has the index and the bundle map of
    /// `self`, stores every blob that lies on the remote of `self`, and knows each of those
    /// bundles as the saved cache does, all of which opening over an unchanged remote
    /// gives, then every chunk that `self` stores is stored in `repo` with the same bytes.
    pub proof fn lemma_reopened(&self, repo: &Self)
        requires
            self.wf(),
            cache_matches(self.saved_cache(), self.infos(), self.lists()),
            repo.index() == self.index(),
            repo.bundle_map() == self.bundle_map(),
            forall|j: int|
                0 <= j < self.remote_bundles().len() ==> repo.blobs().contains_pair(
                    (#[trigger] self.remote_bundles()[j]).info.id,
                    self.remote_bundles()[j].data@,
                ),
            forall|j: int|
                0 <= j < self.remote_bundles().len() ==> #[trigger] known_as(
                    repo.infos(),
                    repo.lists(),
                    self.saved_cache(),
                    self.remote_bundles()[j],
                ),
        ensures
            repo.keeps_content_of(self),
    {
        self.lemma_remote();
        let keys = self.keys();
        let cache = self.saved_cache();
        let remote = self.remote_bundles();
        assert forall|h: hash::Hash| #[trigger] self.stored(keys, h) implies repo.stored(keys, h)
            && repo.content(keys, h) == self.content(keys, h) by {
            let loc = self.index()[h];
            let cid = self.bundle_map()[loc.bundle];
            assert(bundles_list(remote, cid));
            let j = choose|j: int| 0 <= j < remote.len() && (#[trigger] remote[j]).info.id == cid;
            assert(self.blobs().contains_pair(remote[j].info.id, remote[j].data@));
            assert(repo.blobs().contains_pair(remote[j].info.id, remote[j].data@));
            assert(known_as(repo.infos(), repo.lists(), cache, remote[j]));
            assert(metas_list(cache, cid));
            let k = choose|k: int| 0 <= k < cache.len() && (#[trigger] cache[k]).info.id == cid;
            assert(self.infos().contains_pair(cache[k].info.id, cache[k].info));
            assert(self.lists().contains_pair(cache[k].info.id, cache[k].chunks@));
            let w = choose|w: int|
                0 <= w < cache.len() && (#[trigger] cache[w]).info == repo.infos()[cid]
                    && cache[w].chunks@ == repo.lists()[cid] && cache[w].info.id == cid;
            if w < k {
                assert(cache[w].info.id != cache[k].info.id);
            }
            if k < w {
                assert(cache[k].info.id != cache[w].info.id);
            }
        }
    }

    /// Whether `bundle` is a bundle that lies on the remote of this repository.
    pub open spec fn on_remote(&self, bundle: StoredBundle) -> bool {
        exists|i: int|
            0 <= i < self.remote_bundles().len() && #[trigger] self.remote_bundles()[i] == bundle
    }

    /// Whether every bundle of `remote` is a bundle that lies on the remote of this
    /// repository.
    pub open spec fn held(&self, remote: Seq<StoredBundle>) -> bool {
        forall|j: int| 0 <= j < remote.len() ==> self.on_remote(#[trigger] remote[j])
    }

    /// The remote of a repository holds its own bundles, and so does it after one of them
    /// was taken away; neither names a bundle twice.
    pub proof fn lemma_held(&self, k: int)
        requires
            self.wf(),
        ensures
            self.held(self.remote_bundles()),
            bundles_unique(self.remote_bundles()),
            0 <= k < self.remote_bundles().len() ==> self.held(self.remote_bundles().remove(k))
                && bundles_unique(self.remote_bundles().remove(k)),
    {
        self.lemma_remote();
        let all = self.remote_bundles();
        assert forall|j: int| 0 <= j < all.len() implies self.on_remote(#[trigger] all[j]) by {
            assert(self.remote_bundles()[j] == all[j]);
        }
        if 0 <= k < all.len() {
            let rest = all.remove(k);
            assert forall|j: int| 0 <= j < rest.len() implies self.on_remote(
                #[trigger] rest[j],
            ) by {
                if j < k {
                    assert(self.remote_bundles()[j] == rest[j]);
                } else {
                    assert(self.remote_bundles()[j + 1] == rest[j]);
                }
            }
            assert forall|a: int, b: int| 0 <= a < b < rest.len() implies (#[trigger] rest[a]).info.id
                != (#[trigger] rest[b]).info.id by {
                let x = if a < k {
                    a
                } else {
                    a + 1
                };
                let y = if b < k {
                    b
                } else {
                    b + 1
                };
                assert(rest[a] == all[x] && rest[b] == all[y]);
                assert(all[x].info.id != all[y].info.id);
            }
            assert(self.held(rest));
            assert(bundles_unique(rest));
        }
    }

    /// What a repository hands out when it is given up can be opened again, and so can it
    /// after bundles were taken from the remote. It is asked that what was saved is what
    /// the repository holds, as after a flush, that the saved configuration can be used,
    /// that every bundle on the remote is known, as it is in a repository that was made or
    /// opened and then written to, and that the bundle map leaves two ids above its own.
    pub proof fn lemma_closed_opens(&self, local: &LocalState, remote: &RemoteState)
        requires
            self.wf(),
            self.stores_known(),
            self.saved_config().valid(),
            rows_injective(self.saved_map()),
            cache_matches(self.saved_cache(), self.infos(), self.lists()),
            ids_spare(self.saved_map(), 2),
            local.config == self.saved_config(),
            local.bundle_map@ == self.saved_map(),
            local.cache@ == self.saved_cache(),
            self.held(remote.bundles@),
            bundles_unique(remote.bundles@),
        ensures
            opens(local, remote),
    {
        self.lemma_wf();
        self.lemma_remote();
        lemma_spare_free(self.saved_map());
        let cache = local.cache@;
        let there = remote.bundles@;
        assert forall|k: int| 0 <= k < cache.len() implies (#[trigger] cache[k]).wf() by {
            assert(self.infos().contains_pair(cache[k].info.id, cache[k].info));
            assert(self.lists().contains_pair(cache[k].info.id, cache[k].chunks@));
        }
        assert forall|j: int| 0 <= j < there.len() implies (#[trigger] there[j]).wf()
            && metas_list(cache, there[j].info.id) by {
            assert(self.on_remote(there[j]));
            let i = choose|i: int|
                0 <= i < self.remote_bundles().len() && #[trigger] self.remote_bundles()[i]
                    == there[j];
            assert(self.remote_bundles()[i].wf());
            assert(self.blobs().contains_pair(
                self.remote_bundles()[i].info.id,
                self.remote_bundles()[i].data@,
            ));
            assert(self.infos().dom().contains(there[j].info.id));
        }
    }

    /// What a repository with a sound index hands out when it is given up is sound in
    /// itself, if what was saved is what the repository holds, as after a flush: so the
    /// index is sound again when it is opened.
    pub proof fn lemma_closed_sound(&self, local: &LocalState)
        requires
            self.wf(),
            self.consistent(),
            rows_map(self.saved_map()) == self.bundle_map(),
            cache_matches(self.saved_cache(), self.infos(), self.lists()),
            local.index@ == self.index(),
            local.bundle_map@ == self.saved_map(),
            local.cache@ == self.saved_cache(),
        ensures
            local_sound(local),
    {
        self.lemma_wf();
        let cache = local.cache@;
        let lists = meta_lists(cache);
        assert forall|h: hash::Hash| #[trigger] local.index@.dom().contains(h) implies entry_ok(
            rows_map(local.bundle_map@),
            lists,
            h,
            local.index@[h],
        ) by {
            let loc = self.index()[h];
            assert(entry_ok(self.bundle_map(), self.lists(), h, loc));
            let cid = self.bundle_map()[loc.bundle];
            assert(self.infos().dom().contains(cid));
            assert(metas_list(cache, cid));
            let k = choose|k: int| 0 <= k < cache.len() && (#[trigger] cache[k]).info.id == cid;
            let w = choose|w: int| 0 <= w < cache.len() && (#[trigger] cache[w]).info.id == cid;
            assert(self.lists().contains_pair(cache[w].info.id, cache[w].chunks@));
            assert(lists[cid] == cache[w].chunks@);
        }
    }

    /// After opening, every bundle on the remote is known: every stored blob lies on the
    /// remote, and every bundle of the remote is known.
    pub proof fn lemma_opened_known(&self, cache: Seq<BundleMeta>, remote: Seq<StoredBundle>)
        requires
            forall|id: BundleId| self.blobs().dom().contains(id) ==> bundles_list(remote, id),
            forall|j: int|
                0 <= j < remote.len() ==> #[trigger] known_as(
                    self.infos(),
                    self.lists(),
                    cache,
                    remote[j],
                ),
        ensures
            self.stores_known(),
    {
        assert forall|id: BundleId| #[trigger]
            self.blobs().dom().contains(id) implies self.infos().dom().contains(id) by {
            assert(bundles_list(remote, id));
            let j = choose|j: int| 0 <= j < remote.len() && (#[trigger] remote[j]).info.id == id;
            assert(known_as(self.infos(), self.lists(), cache, remote[j]));
        }
    }

    /// A repository without open bundles carries its own content.
    pub proof fn lemma_carries_itself(&self)
        requires
            self.writer(BundleMode::Data) is None,
            self.writer(BundleMode::Meta) is None,
        ensures
            self.carries(self),
    {
    }

    /// The same index, bundles and open bundles carry the same content.
    pub proof fn lemma_same_carries(&self, new: &Self, base: &Self)
        requires
            self.carries(base),
            new.same_storage(self),
        ensures
            new.carries(base),
    {
        let keys = base.keys();
        assert forall|h: hash::Hash| #[trigger] base.stored(keys, h) implies new.stored(keys, h)
            && new.content(keys, h) == base.content(keys, h) by {
            assert(self.stored(keys, h));
        }
        assert(new.pending(BundleMode::Data) == self.pending(BundleMode::Data));
        assert(new.pending(BundleMode::Meta) == self.pending(BundleMode::Meta));
        assert(new.pending_data(BundleMode::Data) == self.pending_data(BundleMode::Data));
        assert(new.pending_data(BundleMode::Meta) == self.pending_data(BundleMode::Meta));
        assert forall|p: int| 0 <= p < new.pending(BundleMode::Data).len() implies #[trigger] new.waiting_holds(
            base,
            BundleMode::Data,
            p,
        ) by {
            assert(self.waiting_holds(base, BundleMode::Data, p));
        }
        assert forall|p: int| 0 <= p < new.pending(BundleMode::Meta).len() implies #[trigger] new.waiting_holds(
            base,
            BundleMode::Meta,
            p,
        ) by {
            assert(self.waiting_holds(base, BundleMode::Meta, p));
        }
    }

    /// A chunk that can be read where nothing was deleted can be read afterwards, and gives
    /// the same bytes.
    pub proof fn lemma_grown_at(&self, new: &Self, keys: Map<Seq<u8>, SecretKey>, loc: Location)
        requires
            self.grown(new),
            self.readable_at(keys, loc),
        ensures
            new.readable_at(keys, loc),
            new.bytes_at(keys, loc) == self.bytes_at(keys, loc),
    {
        let cid = self.bundle_map()[loc.bundle];
        assert(new.bundle_map().dom().contains(loc.bundle) && new.bundle_map()[loc.bundle] == cid);
        assert(new.lists().dom().contains(cid) && new.lists()[cid] == self.lists()[cid]);
        assert(new.infos().dom().contains(cid) && new.infos()[cid] == self.infos()[cid]);
        assert(new.blobs().dom().contains(cid) && new.blobs()[cid] == self.blobs()[cid]);
    }

    /// Appending a chunk whose bytes are those that `base` stores for its fingerprint
    /// keeps the content of `base`.
    pub proof fn lemma_appended_carries(
        &self,
        mid: &Self,
        base: &Self,
        mode: BundleMode,
        h: hash::Hash,
        data: Seq<u8>,
    )
        requires
            self.wf(),
            self.carries(base),
            self.appended(mid, mode, h, data),
            data.len() <= u32::MAX,
            self.config().compression is None,
            key_ready(base.keys(), self.config().encryption),
            base.stored(base.keys(), h) ==> data == base.content(base.keys(), h),
        ensures
            mid.carries(base),
            mid.pending_data(mode).len() == total_len(mid.pending(mode)),
    {
        self.lemma_wf();
        let keys = base.keys();
        let rest = Self::other(mode);
        assert forall|g: hash::Hash| #[trigger] base.stored(keys, g) implies mid.stored(keys, g)
            && mid.content(keys, g) == base.content(keys, g) by {
            assert(self.stored(keys, g));
        }
        let was = self.pending(mode);
        let bytes0 = self.pending_data(mode);
        let chunks = mid.pending(mode);
        let bytes = mid.pending_data(mode);
        let n = was.len() as int;
        assert(bytes0.len() == total_len(was)) by {
            if self.writer(mode) is None {
                assert(was =~= Seq::<ChunkEntry>::empty());
            }
        }
        assert(chunks.drop_last() =~= was);
        assert(chunks.subrange(0, n) =~= was);
        lemma_chunk_start_step(chunks, n);
        assert(was.subrange(0, n) =~= was);
        assert(self.waiting_content(base, mode) && self.waiting_content(base, rest)) by {
            match mode {
                BundleMode::Data => {},
                BundleMode::Meta => {},
            }
        }
        assert forall|p: int| 0 <= p < chunks.len() implies #[trigger] mid.waiting_holds(
            base,
            mode,
            p,
        ) by {
            if p < n {
                assert(self.waiting_holds(base, mode, p));
                assert(chunks[p] == was[p]);
                assert(chunks.subrange(0, p) =~= was.subrange(0, p));
                lemma_chunk_start_step(was, p);
                lemma_chunk_start_monotonic(was, p + 1, n);
                lemma_chunk_start_step(was, n - 1);
                assert(chunk_bytes(bytes, chunks, p) =~= chunk_bytes(bytes0, was, p));
            } else {
                assert(chunk_bytes(bytes, chunks, n) =~= data);
            }
        }
        assert(mid.waiting_content(base, mode));
        assert(mid.pending(rest) == self.pending(rest));
        assert(mid.pending_data(rest) == self.pending_data(rest));
        assert forall|p: int| 0 <= p < mid.pending(rest).len() implies #[trigger] mid.waiting_holds(
            base,
            rest,
            p,
        ) by {
            assert(self.waiting_holds(base, rest, p));
        }
        assert(mid.waiting_content(base, rest));
        match mode {
            BundleMode::Data => {},
            BundleMode::Meta => {},
        }
    }

    /// Publishing an open bundle keeps the content: what was stored stays where it was or
    /// moves into the new bundle with the bytes that waited there.
    pub proof fn lemma_published_carries(&self, new: &Self, base: &Self, mode: BundleMode)
        requires
            !self.bundle_map().dom().contains(self.next_id(mode)),
            self.published(new, mode, self.pending(mode).len() as int),
            self.pending(mode).len() <= MAX_CHUNKS,
            self.pending_data(mode).len() == total_len(self.pending(mode)),
            self.carries(base),
        ensures
            new.carries(base),
    {
        let keys = base.keys();
        let chunks = self.pending(mode);
        let bid = self.next_id(mode);
        let cid = new.bundle_map()[bid];
        let w = self.writer(mode)->0;
        let rest = Self::other(mode);
        self.lemma_published_carried(new, mode);
        lemma_apply_chunks(self.index(), chunks, bid, chunks.len() as int);
        assert(self.waiting_content(base, mode) && self.waiting_content(base, rest)) by {
            match mode {
                BundleMode::Data => {},
                BundleMode::Meta => {},
            }
        }
        lemma_unsealed(keys, new.blobs()[cid], w.encryption(), w.data());
        assert forall|h: hash::Hash| #[trigger] base.stored(keys, h) implies new.stored(keys, h)
            && new.content(keys, h) == base.content(keys, h) by {
            assert(self.stored(keys, h));
            let loc0 = self.index()[h];
            let loc = new.index()[h];
            assert(new.index().dom().contains(h));
            if loc == loc0 {
                self.lemma_grown_at(new, keys, loc0);
            } else {
                let p = loc.chunk as int;
                assert(loc.bundle == bid && 0 <= p < chunks.len() && chunks[p].hash == h);
                assert(self.waiting_holds(base, mode, p));
                lemma_chunk_start_monotonic(chunks, p + 1, chunks.len() as int);
                lemma_chunk_start_step(chunks, chunks.len() - 1);
                assert(new.lists()[cid] == chunks);
                assert(new.readable_at(keys, loc));
            }
        }
        assert(new.pending(mode) =~= Seq::<ChunkEntry>::empty());
        assert(new.pending(rest) == self.pending(rest));
        assert(new.pending_data(rest) == self.pending_data(rest));
        assert forall|p: int| 0 <= p < new.pending(rest).len() implies #[trigger] new.waiting_holds(
            base,
            rest,
            p,
        ) by {
            assert(self.waiting_holds(base, rest, p));
        }
        assert(new.waiting_content(base, rest));
        assert(new.waiting_content(base, mode));
        match mode {
            BundleMode::Data => {},
            BundleMode::Meta => {},
        }
    }

    /// Writing a chunk whose bytes are those that `base` stores for its fingerprint keeps
    /// the content of `base`, whether or not the bundle is closed by it.
    pub proof fn lemma_written_carries(
        &self,
        new: &Self,
        base: &Self,
        mode: BundleMode,
        h: hash::Hash,
        data: Seq<u8>,
        loc: Location,
    )
        requires
            self.wf(),
            self.carries(base),
            self.written(new, mode, h, data, Ok::<Location, RepositoryError>(loc)),
            data.len() <= u32::MAX,
            self.config().compression is None,
            key_ready(base.keys(), self.config().encryption),
            base.stored(base.keys(), h) ==> data == base.content(base.keys(), h),
        ensures
            new.carries(base),
    {
        self.lemma_wf();
        let mid = choose|mid: Self| #[trigger]
            self.appended(&mid, mode, h, data) && mid.full(mode) == self.fills(mode, data.len())
                && (if mid.full(mode) {
                mid.published(new, mode, mid.pending(mode).len() as int)
            } else {
                new.same_storage(&mid)
            });
        self.lemma_appended_carries(&mid, base, mode, h, data);
        if mid.full(mode) {
            assert(mid.next_id(mode) == self.next_id(mode)) by {
                match mode {
                    BundleMode::Data => {},
                    BundleMode::Meta => {},
                }
            }
            assert(self.pending(mode).len() < MAX_CHUNKS);
            mid.lemma_published_carries(new, base, mode);
        } else {
            mid.lemma_same_carries(new, base);
        }
    }

    /// One step of flushing keeps the content.
    pub proof fn lemma_step_carries(&self, new: &Self, base: &Self, mode: BundleMode)
        requires
            !self.bundle_map().dom().contains(self.next_id(mode)),
            self.step(new, mode),
            self.pending(mode).len() <= MAX_CHUNKS,
            self.pending_data(mode).len() == total_len(self.pending(mode)),
            self.carries(base),
        ensures
            new.carries(base),
    {
        if self.writer(mode) is Some {
            self.lemma_published_carries(new, base, mode);
        } else {
            self.lemma_same_carries(new, base);
        }
    }

    /// Flushing keeps the content.
    pub proof fn lemma_flushed_carries(&self, new: &Self, base: &Self)
        requires
            self.wf(),
            self.flushed(new),
            self.carries(base),
        ensures
            new.carries(base),
    {
        self.lemma_wf();
        let mid = choose|mid: Self| #[trigger]
            self.step(&mid, BundleMode::Data) && mid.step(new, BundleMode::Meta);
        let data = BundleMode::Data;
        let meta = BundleMode::Meta;
        assert(self.pending(data).len() < MAX_CHUNKS);
        assert(self.pending(meta).len() < MAX_CHUNKS);
        assert(self.pending_data(data).len() == total_len(self.pending(data))) by {
            if self.writer(data) is None {
                assert(self.pending(data) =~= Seq::<ChunkEntry>::empty());
            }
        }
        assert(self.pending_data(meta).len() == total_len(self.pending(meta))) by {
            if self.writer(meta) is None {
                assert(self.pending(meta) =~= Seq::<ChunkEntry>::empty());
            }
        }
        self.lemma_step_carries(&mid, base, data);
        assert(mid.writer(meta) == self.writer(meta));
        assert(mid.next_id(meta) == self.next_id(meta));
        if self.writer(data) is Some {
            self.lemma_published_carried(&mid, data);
        }
        assert(!mid.bundle_map().dom().contains(mid.next_id(meta)));
        mid.lemma_step_carries(new, base, meta);
    }

    /// Deleting a bundle that no index entry points into keeps the content.
    pub proof fn lemma_deleted_carries(&self, new: &Self, base: &Self, id: u32)
        requires
            crate::bundle_map::injective(self.bundle_map()),
            self.carries(base),
            forall|h: hash::Hash| #[trigger]
                self.index().dom().contains(h) ==> self.index()[h].bundle != id,
            new.index() == self.index(),
            new.bundle_map() == self.bundle_map().remove(id),
            new.writer(BundleMode::Data) == self.writer(BundleMode::Data),
            new.writer(BundleMode::Meta) == self.writer(BundleMode::Meta),
            if self.bundle_map().dom().contains(id) {
                &&& new.infos() == self.infos().remove(self.bundle_map()[id])
                &&& new.lists() == self.lists().remove(self.bundle_map()[id])
                &&& new.blobs() == self.blobs().remove(self.bundle_map()[id])
            } else {
                &&& new.infos() == self.infos()
                &&& new.lists() == self.lists()
                &&& new.blobs() == self.blobs()
            },
        ensures
            new.carries(base),
    {
        let keys = base.keys();
        assert forall|h: hash::Hash| #[trigger] base.stored(keys, h) implies new.stored(keys, h)
            && new.content(keys, h) == base.content(keys, h) by {
            assert(self.stored(keys, h));
            let loc = self.index()[h];
            assert(loc.bundle != id);
            if self.bundle_map().dom().contains(id) {
                assert(self.bundle_map()[loc.bundle] != self.bundle_map()[id]);
            }
        }
        assert(new.pending(BundleMode::Data) == self.pending(BundleMode::Data));
        assert(new.pending(BundleMode::Meta) == self.pending(BundleMode::Meta));
        assert(new.pending_data(BundleMode::Data) == self.pending_data(BundleMode::Data));
        assert(new.pending_data(BundleMode::Meta) == self.pending_data(BundleMode::Meta));
        assert forall|p: int| 0 <= p < new.pending(BundleMode::Data).len() implies #[trigger] new.waiting_holds(
            base,
            BundleMode::Data,
            p,
        ) by {
            assert(self.waiting_holds(base, BundleMode::Data, p));
        }
        assert forall|p: int| 0 <= p < new.pending(BundleMode::Meta).len() implies #[trigger] new.waiting_holds(
            base,
            BundleMode::Meta,
            p,
        ) by {
            assert(self.waiting_holds(base, BundleMode::Meta, p));
        }
    }
}

} // verus!
