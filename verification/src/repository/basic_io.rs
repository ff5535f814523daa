use crate::bundle::{chunk_bytes, total_len, BundleMode, ChunkEntry, MAX_CHUNKS};
use crate::bundle_map::BundleId;
use crate::cache::{lemma_place_of, place_of, Decoded, DecodedCache, CACHE_BUNDLES};
use crate::bundle_db::{chunk_read, decoded};
use crate::chunker::Chunker;
use crate::codec::Compressor;
use crate::error::RepositoryError;
use crate::hash;
use crate::index::Location;
use crate::repository::{within, Repository};
use crate::writer::BundleWriter;
use vstd::prelude::*;

verus! {

impl<C: Compressor> Repository<C> {
    /// The bytes of the open bundle of `mode`; empty if there is none.
    pub open spec fn pending_data(&self, mode: BundleMode) -> Seq<u8> {
        match self.writer(mode) {
            Some(w) => w.data(),
            None => Seq::empty(),
        }
    }

    /// Whether `new` is `self` after a chunk with fingerprint `h` and bytes `data` was
    /// appended to the open bundle of `mode`, which is opened with the settings of the
    /// configuration if there is none.
    pub open spec fn appended(
        &self,
        new: &Self,
        mode: BundleMode,
        h: hash::Hash,
        data: Seq<u8>,
    ) -> bool {
        &&& new.index() == self.index()
        &&& new.bundle_map() == self.bundle_map()
        &&& new.infos() == self.infos()
        &&& new.lists() == self.lists()
        &&& new.blobs() == self.blobs()
        &&& new.next_data() == self.next_data()
        &&& new.next_meta() == self.next_meta()
        &&& new.time() == self.time()
        &&& new.config() == self.config()
        &&& new.keys() == self.keys()
        &&& new.writer(Self::other(mode)) == self.writer(Self::other(mode))
        &&& new.writer(mode) matches Some(w)
        &&& w.chunks() == self.pending(mode).push(ChunkEntry { hash: h, len: data.len() as u32 })
        &&& w.data() == self.pending_data(mode) + data
        &&& w.mode() == mode
        &&& match self.writer(mode) {
            Some(o) => w.hash_method() == o.hash_method() && w.compression() == o.compression()
                && w.encryption() == o.encryption(),
            None => w.hash_method() == self.config().hash && w.compression()
                == self.config().compression && w.encryption() == self.config().encryption,
        }
    }

    /// Whether the open bundle of `mode` has to be closed: it has reached the bundle size, or
    /// it has no room for another chunk.
    pub open spec fn full(&self, mode: BundleMode) -> bool {
        self.pending_data(mode).len() >= self.config().bundle_size || self.pending(mode).len()
            >= MAX_CHUNKS
    }

    /// What writing a chunk does: the chunk is appended to the open bundle of `mode`, and
    /// its location is the watermark id of the mode with the chunk's place in that bundle.
    /// If the bundle is full then, it is closed and published, which can fail as `sealed` says.
    pub open spec fn written(
        &self,
        new: &Self,
        mode: BundleMode,
        h: hash::Hash,
        data: Seq<u8>,
        r: Result<Location, RepositoryError>,
    ) -> bool {
        if r matches Err(RepositoryError::IdsExhausted) {
            &&& new.same_storage(self)
            &&& self.fills(mode, data.len())
            &&& crate::repository::ids_exhausted(
                self.bundle_map(),
                crate::repository::max_id(self.next_data(), self.next_meta()),
            )
        } else {
            exists|mid: Self| #[trigger]
                self.appended(&mid, mode, h, data) && mid.full(mode) == self.fills(
                    mode,
                    data.len(),
                ) && match r {
                    Ok(loc) => {
                        &&& loc == Location {
                            bundle: self.next_id(mode),
                            chunk: self.pending(mode).len() as u32,
                        }
                        &&& if mid.full(mode) {
                            mid.published(new, mode, mid.pending(mode).len() as int)
                        } else {
                            new.same_storage(&mid)
                        }
                    },
                    Err(e) => mid.full(mode) && mid.sealed(
                        new,
                        mode,
                        Err::<(), RepositoryError>(e),
                    ),
                }
        }
    }

    /// Whether a chunk of `len` bytes fills the open bundle of `mode`.
    pub open spec fn fills(&self, mode: BundleMode, len: nat) -> bool {
        self.pending_data(mode).len() + len >= self.config().bundle_size || self.pending(
            mode,
        ).len() + 1 >= MAX_CHUNKS
    }

    /// Writes a chunk without asking whether its fingerprint is indexed. The chunk is not
    /// indexed before its bundle is closed.
    pub fn put_chunk_override(&mut self, mode: BundleMode, hash: hash::Hash, data: &[u8]) -> (r:
        Result<Location, RepositoryError>)
        requires
            old(self).wf(),
            data@.len() <= u32::MAX,
        ensures
            final(self).wf(),
            old(self).consistent() ==> final(self).consistent(),
            final(self).same_settings(old(self)),
            final(self).keeps_hashes_of(old(self)),
            old(self).written(final(self), mode, hash, data@, r),
            r matches Err(e) ==> crate::repository::storage_failure(e),
            old(self).grown(final(self)),
            old(self).stores_known() ==> final(self).stores_known(),
    {
        let config = self.get_config();
        proof {
            self.lemma_wf();
        }
        let (size0, count0) = match mode {
            BundleMode::Data => match &self.data_bundle {
                Some(w) => (w.raw_size(), w.chunk_count()),
                None => (0, 0),
            },
            BundleMode::Meta => match &self.meta_bundle {
                Some(w) => (w.raw_size(), w.chunk_count()),
                None => (0, 0),
            },
        };
        let fills = data.len() >= config.bundle_size || size0 >= config.bundle_size - data.len()
            || count0 + 1 >= MAX_CHUNKS;
        if fills && self.next_free_bundle_id().is_none() {
            return Err(RepositoryError::IdsExhausted);
        }
        match mode {
            BundleMode::Data => {
                if self.data_bundle.is_none() {
                    self.data_bundle = Some(
                        BundleWriter::new(mode, config.hash, config.compression, config.encryption),
                    );
                }
            },
            BundleMode::Meta => {
                if self.meta_bundle.is_none() {
                    self.meta_bundle = Some(
                        BundleWriter::new(mode, config.hash, config.compression, config.encryption),
                    );
                }
            },
        }
        let ghost opened = *self;
        let (idx, size, count) = match mode {
            BundleMode::Data => {
                let mut w = self.data_bundle.take().unwrap();
                let idx = w.add(data, hash);
                let size = w.raw_size();
                let count = w.chunk_count();
                self.data_bundle = Some(w);
                (idx, size, count)
            },
            BundleMode::Meta => {
                let mut w = self.meta_bundle.take().unwrap();
                let idx = w.add(data, hash);
                let size = w.raw_size();
                let count = w.chunk_count();
                self.meta_bundle = Some(w);
                (idx, size, count)
            },
        };
        let bundle = match mode {
            BundleMode::Data => self.next_data_bundle,
            BundleMode::Meta => self.next_meta_bundle,
        };
        let loc = Location { bundle, chunk: idx as u32 };
        let ghost mid = *self;
        proof {
            assert(Seq::<ChunkEntry>::empty().push(
                ChunkEntry { hash, len: data@.len() as u32 },
            ) =~= opened.pending(mode).push(ChunkEntry { hash, len: data@.len() as u32 })
                || old(self).writer(mode) is Some);
            assert(Seq::<u8>::empty() + data@ =~= data@);
            assert(old(self).appended(&mid, mode, hash, data@));
        }
        if size >= config.bundle_size || count >= MAX_CHUNKS {
            match self.finish_bundle(mode) {
                Ok(()) => {},
                Err(e) => {
                    return Err(e);
                },
            }
        }
        Ok(loc)
    }

    /// Writes a chunk, unless its fingerprint is indexed already: then its location is
    /// returned and nothing changes.
    pub fn put_chunk(&mut self, mode: BundleMode, data: &[u8]) -> (r: Result<
        Location,
        RepositoryError,
    >)
        requires
            old(self).wf(),
            data@.len() <= u32::MAX,
        ensures
            final(self).wf(),
            old(self).consistent() ==> final(self).consistent(),
            final(self).same_settings(old(self)),
            final(self).keeps_hashes_of(old(self)),
            exists|h: hash::Hash| #[trigger]
                old(self).config().hash.hashes_to(data@, h) && old(self).put(
                    final(self),
                    mode,
                    h,
                    data@,
                    r,
                ),
            old(self).stores_known() ==> final(self).stores_known(),
    {
        let h = self.get_config().hash.hash(data);
        match self.index.get(&h) {
            Some(loc) => {
                assert(old(self).put(self, mode, h, data@, Ok(loc)));
                Ok(loc)
            },
            None => {
                let r = self.put_chunk_override(mode, h, data);
                assert(old(self).put(self, mode, h, data@, r));
                r
            },
        }
    }

    /// What `put_chunk` does with a chunk whose fingerprint is `h`.
    pub open spec fn put(
        &self,
        new: &Self,
        mode: BundleMode,
        h: hash::Hash,
        data: Seq<u8>,
        r: Result<Location, RepositoryError>,
    ) -> bool {
        if self.index().dom().contains(h) {
            r == Ok::<Location, RepositoryError>(self.index()[h]) && new.same_storage(self)
        } else {
            self.written(new, mode, h, data, r)
        }
    }

    /// Forgets the fingerprint `h`: the index loses its entry, and the chunk behind it is no
    /// longer in use. Returns whether `h` was indexed.
    pub fn forget_chunk(&mut self, h: &hash::Hash) -> (was: bool)
        requires
            old(self).wf(),
        ensures
            final(self).wf(),
            old(self).consistent() ==> final(self).consistent(),
            final(self).same_settings(old(self)),
            was == old(self).index().dom().contains(*h),
            final(self).index() == old(self).index().remove(*h),
            final(self).bundle_map() == old(self).bundle_map(),
            final(self).bundle_rows() == old(self).bundle_rows(),
            final(self).infos() == old(self).infos(),
            final(self).lists() == old(self).lists(),
            final(self).blobs() == old(self).blobs(),
            final(self).next_data() == old(self).next_data(),
            final(self).next_meta() == old(self).next_meta(),
            final(self).writer(BundleMode::Data) == old(self).writer(BundleMode::Data),
            final(self).writer(BundleMode::Meta) == old(self).writer(BundleMode::Meta),
    {
        let was = self.index.delete(h);
        proof {
            if old(self).consistent() {
                assert forall|g: hash::Hash| #[trigger]
                    self.index().dom().contains(g) implies crate::repository::entry_ok(
                    self.bundle_map(),
                    self.lists(),
                    g,
                    self.index()[g],
                ) by {
                    assert(old(self).index().dom().contains(g));
                }
            }
        }
        was
    }

    /// The location that the index records for `h`.
    pub fn locate(&self, h: &hash::Hash) -> (r: Option<Location>)
        requires
            self.wf(),
        ensures
            r == (if self.index().dom().contains(*h) {
                Some(self.index()[*h])
            } else {
                None
            }),
    {
        self.index.get(h)
    }

    /// Reads the chunk at `loc`.
    pub fn get_chunk(&self, loc: Location) -> (r: Result<Vec<u8>, RepositoryError>)
        requires
            self.wf(),
        ensures
            if self.bundle_map().dom().contains(loc.bundle) {
                chunk_read(
                    self.infos(),
                    self.lists(),
                    self.blobs(),
                    self.keys(),
                    self.bundle_map()[loc.bundle],
                    loc.chunk as int,
                    r,
                )
            } else {
                r == Err::<Vec<u8>, RepositoryError>(RepositoryError::BundleIdMissing(loc.bundle))
            },
            r matches Err(e) ==> crate::repository::storage_failure(e),
    {
        match self.bundle_map.get(loc.bundle) {
            None => Err(RepositoryError::BundleIdMissing(loc.bundle)),
            Some(id) => self.bundles.get_chunk(&self.codec, &self.crypto, &id, loc.chunk as usize),
        }
    }

    /// Whether `d` holds bytes that decoding the bundle `d.id` of this repository gave.
    pub open spec fn decoded_here(&self, d: Decoded) -> bool {
        decoded(
            self.infos(),
            self.lists(),
            self.blobs(),
            self.keys(),
            d.id,
            Ok::<Vec<u8>, RepositoryError>(d.raw),
        )
    }

    /// Whether every entry of `cache` holds bytes that decoding its bundle gave.
    pub open spec fn cache_sound(&self, cache: Seq<Decoded>) -> bool {
        forall|k: int| 0 <= k < cache.len() ==> #[trigger] self.decoded_here(cache[k])
    }

    /// Reads the chunk at `loc` as `get_chunk` does, but looks for the decoded bundle in
    /// `cache` first and leaves it there afterwards. With a cache that was filled from this
    /// repository the outcome is one of reading the chunk.
    pub fn get_chunk_cached(&self, cache: &mut DecodedCache, loc: Location) -> (r: Result<
        Vec<u8>,
        RepositoryError,
    >)
        requires
            self.wf(),
            old(cache).wf(),
        ensures
            final(cache).wf(),
            final(cache).capacity() == old(cache).capacity(),
            !self.bundle_map().dom().contains(loc.bundle) ==> r == Err::<Vec<u8>, RepositoryError>(
                RepositoryError::BundleIdMissing(loc.bundle),
            ),
            r matches Err(e) ==> crate::repository::storage_failure(e),
            !(r matches Err(RepositoryError::ChunkMissing(_))),
            self.cache_sound(old(cache)@) ==> self.cache_sound(final(cache)@),
            self.cache_sound(old(cache)@) && self.bundle_map().dom().contains(loc.bundle)
                ==> chunk_read(
                self.infos(),
                self.lists(),
                self.blobs(),
                self.keys(),
                self.bundle_map()[loc.bundle],
                loc.chunk as int,
                r,
            ),
            self.bundle_map().dom().contains(loc.bundle) ==> {
                let id = self.bundle_map()[loc.bundle];
                &&& r is Ok ==> self.lists().dom().contains(id) && loc.chunk
                    < self.lists()[id].len()
                &&& r matches Ok(data) ==> data@.len() == self.lists()[id][loc.chunk as int].len
                    && self.infos()[id].hash_method.hashes_to(
                    data@,
                    self.lists()[id][loc.chunk as int].hash,
                )
            },
    {
        let id = match self.bundle_map.get(loc.bundle) {
            None => {
                return Err(RepositoryError::BundleIdMissing(loc.bundle));
            },
            Some(id) => id,
        };
        proof {
            self.bundles.lemma_views();
        }
        let ghost before = cache@;
        if !cache.touch(&id) {
            if !self.bundles.knows(&id) || !self.bundles.stores(&id) {
                return Err(RepositoryError::BundleMissing(id));
            }
            if self.bundles.chunk_entry(&id, loc.chunk as usize).is_none() {
                return Err(RepositoryError::IndexCorrupt);
            }
            let raw = match self.bundles.decode_bundle(&self.codec, &self.crypto, &id) {
                Ok(raw) => raw,
                Err(e) => {
                    return Err(e);
                },
            };
            if cache.is_off() {
                return self.bundles.chunk_of(&raw, &id, loc.chunk as usize);
            }
            let ghost fresh = Decoded { id, raw };
            cache.put(id, raw);
            proof {
                cache.lemma_bounded();
                assert(self.decoded_here(fresh));
                if self.cache_sound(before) {
                    assert forall|k: int| 0 <= k < cache@.len() implies #[trigger] self.decoded_here(
                        cache@[k],
                    ) by {
                        let rest = if before.len() < cache.capacity() {
                            before
                        } else {
                            before.drop_last()
                        };
                        assert(cache@ == seq![fresh] + rest);
                        if k > 0 {
                            assert(cache@[k] == rest[k - 1]);
                            assert(rest[k - 1] == before[k - 1]);
                        } else {
                            assert(cache@[0] == fresh);
                        }
                    }
                }
            }
        } else {
            proof {
                lemma_place_of(before, id);
                let p = place_of(before, id);
                if self.cache_sound(before) {
                    assert forall|k: int| 0 <= k < cache@.len() implies #[trigger] self.decoded_here(
                        cache@[k],
                    ) by {
                        if k == 0 {
                            assert(cache@[0] == before[p]);
                        } else if k <= p {
                            assert(cache@[k] == before[k - 1]);
                        } else {
                            assert(cache@[k] == before[k]);
                        }
                    }
                }
            }
        }
        proof {
            if self.cache_sound(before) {
                assert(self.decoded_here(cache@[0]));
            }
        }
        self.bundles.chunk_of(cache.front(), &id, loc.chunk as usize)
    }

    /// Reads the chunk with fingerprint `h`. In a repository whose index is sound, what is
    /// returned has the fingerprint `h` under the hash method of its bundle.
    pub fn get_chunk_by_hash(&self, h: &hash::Hash) -> (r: Result<Vec<u8>, RepositoryError>)
        requires
            self.wf(),
        ensures
            if self.index().dom().contains(*h) {
                let loc = self.index()[*h];
                if self.bundle_map().dom().contains(loc.bundle) {
                    chunk_read(
                        self.infos(),
                        self.lists(),
                        self.blobs(),
                        self.keys(),
                        self.bundle_map()[loc.bundle],
                        loc.chunk as int,
                        r,
                    )
                } else {
                    r == Err::<Vec<u8>, RepositoryError>(
                        RepositoryError::BundleIdMissing(loc.bundle),
                    )
                }
            } else {
                r == Err::<Vec<u8>, RepositoryError>(RepositoryError::ChunkMissing(*h))
            },
            self.read_by_hash(*h, r),
            self.consistent() ==> (r matches Ok(data) ==> self.method_of(*h).hashes_to(data@, *h)),
            r matches Ok(data) ==> self.index().dom().contains(*h),
            r matches Err(RepositoryError::ChunkMissing(g)) ==> !self.index().dom().contains(g),
            r matches Err(e) ==> crate::repository::storage_failure(e),
    {
        match self.index.get(h) {
            None => Err(RepositoryError::ChunkMissing(*h)),
            Some(loc) => self.get_chunk(loc),
        }
    }

    /// Deduplication: a chunk whose fingerprint is indexed is not written again. Its
    /// location is returned, and nothing is stored.
    pub proof fn lemma_put_known(
        &self,
        new: &Self,
        mode: BundleMode,
        h: hash::Hash,
        data: Seq<u8>,
        r: Result<Location, RepositoryError>,
    )
        requires
            self.index().dom().contains(h),
            self.put(new, mode, h, data, r),
        ensures
            r == Ok::<Location, RepositoryError>(self.index()[h]),
            new.same_storage(self),
    {
    }

    /// Whether bundles that are opened now are stored without compression, sealed at most
    /// for a recipient whose secret key the key store holds, and fingerprinted with
    /// BLAKE2b; and so is the open bundle of `mode` if there is one.
    pub open spec fn unpacked(&self, mode: BundleMode) -> bool {
        &&& self.config().compression is None
        &&& crate::codec::key_ready(self.keys(), self.config().encryption)
        &&& self.config().hash is Blake2
        &&& self.writer(mode) matches Some(w) ==> w.compression() is None
            && crate::codec::key_ready(self.keys(), w.encryption()) && w.hash_method() is Blake2
    }

    /// A bundle that was published without compression can be read, sealed or not: chunk
    /// `i` of it reads as the bytes that were appended, if the chunk list records their
    /// BLAKE2b fingerprint.
    pub proof fn lemma_published_readable(
        &self,
        new: &Self,
        mode: BundleMode,
        i: int,
        r: Result<Vec<u8>, RepositoryError>,
    )
        requires
            self.published(new, mode, self.pending(mode).len() as int),
            self.unpacked(mode),
            new.keys() == self.keys(),
            0 <= i < self.pending(mode).len(),
            crate::bundle::chunk_in_range(self.pending_data(mode), self.pending(mode), i),
            self.pending(mode)[i].hash == crate::hash::blake2_hash(
                chunk_bytes(self.pending_data(mode), self.pending(mode), i),
            ),
            chunk_read(
                new.infos(),
                new.lists(),
                new.blobs(),
                new.keys(),
                new.bundle_map()[self.next_id(mode)],
                i,
                r,
            ),
        ensures
            r matches Ok(d) && d@ == chunk_bytes(self.pending_data(mode), self.pending(mode), i),
    {
        let cid = new.bundle_map()[self.next_id(mode)];
        assert(new.lists().dom().contains(cid));
        assert(new.blobs().dom().contains(cid));
        assert(new.infos()[cid].compression is None);
        crate::codec::lemma_unsealed(
            new.keys(),
            new.blobs()[cid],
            new.infos()[cid].encryption,
            self.pending_data(mode),
        );
    }

    /// Round trip of one chunk, sealed or not: in a repository that stores bundles without
    /// compression, holds the secret key of the recipient it seals for, and fingerprints
    /// with BLAKE2b, a chunk that is written, with its own fingerprint, and whose bundle
    /// is closed at once or by the flush that follows, reads back as the bytes that were
    /// written.
    pub proof fn lemma_chunk_round_trip(
        &self,
        put: &Self,
        new: &Self,
        mode: BundleMode,
        data: Seq<u8>,
        loc: Location,
        r: Result<Vec<u8>, RepositoryError>,
    )
        requires
            self.wf(),
            self.unpacked(mode),
            new.keys() == self.keys(),
            data.len() <= u32::MAX,
            self.written(
                put,
                mode,
                crate::hash::blake2_hash(data),
                data,
                Ok::<Location, RepositoryError>(loc),
            ),
            put.flushed(new),
            chunk_read(
                new.infos(),
                new.lists(),
                new.blobs(),
                new.keys(),
                new.bundle_map()[loc.bundle],
                loc.chunk as int,
                r,
            ),
        ensures
            new.bundle_map().dom().contains(loc.bundle),
            r matches Ok(d) && d@ == data,
    {
        self.lemma_wf();
        let h = crate::hash::blake2_hash(data);
        let mid = choose|mid: Self| #[trigger]
            self.appended(&mid, mode, h, data) && mid.full(mode) == self.fills(mode, data.len())
                && (if mid.full(mode) {
                mid.published(put, mode, mid.pending(mode).len() as int)
            } else {
                put.same_storage(&mid)
            });
        let rest = Self::other(mode);
        let chunks = mid.pending(mode);
        let bytes = mid.pending_data(mode);
        let i = chunks.len() - 1;
        assert(loc.chunk == i);
        assert(self.pending_data(mode).len() == total_len(self.pending(mode))) by {
            if self.writer(mode) is None {
                assert(self.pending(mode) =~= Seq::<ChunkEntry>::empty());
            }
        }
        assert(chunks.drop_last() =~= self.pending(mode));
        assert(chunks.subrange(0, i) =~= self.pending(mode));
        crate::bundle::lemma_chunk_start_step(chunks, i);
        assert(chunk_bytes(bytes, chunks, i) =~= data);
        assert(mid.unpacked(mode));
        assert(mid.next_id(mode) == self.next_id(mode) && mid.next_id(rest) == self.next_id(rest)) by {
            match mode {
                BundleMode::Data => {},
                BundleMode::Meta => {},
            }
        }
        let flushed = choose|m: Self| #[trigger]
            put.step(&m, BundleMode::Data) && m.step(new, BundleMode::Meta);
        if mid.full(mode) {
            assert(put.bundle_map().dom().contains(loc.bundle));
            let cid = put.bundle_map()[loc.bundle];
            assert(!put.bundle_map().dom().contains(put.next_data())) by {
                match mode {
                    BundleMode::Data => {},
                    BundleMode::Meta => {},
                }
            }
            assert(!put.bundle_map().dom().contains(put.next_meta())) by {
                match mode {
                    BundleMode::Data => {},
                    BundleMode::Meta => {},
                }
            }
            Self::lemma_steps_keep(put, &flushed, new);
            assert(new.bundle_map()[loc.bundle] == cid);
            assert(new.infos()[cid] == put.infos()[cid]);
            assert(new.lists()[cid] == put.lists()[cid]);
            assert(new.blobs()[cid] == put.blobs()[cid]);
            assert(chunk_read(
                put.infos(),
                put.lists(),
                put.blobs(),
                new.keys(),
                cid,
                i,
                r,
            ));
            Self::lemma_read_plain(put.infos()[cid], chunks, bytes, new.keys(), cid, i, r,
                put.infos(), put.lists(), put.blobs());
        } else {
            assert(put.writer(mode) == mid.writer(mode));
            assert(put.next_id(mode) == mid.next_id(mode));
            match mode {
                BundleMode::Data => {
                    let cid = flushed.bundle_map()[loc.bundle];
                    assert(put.published(&flushed, mode, chunks.len() as int));
                    assert(!flushed.bundle_map().dom().contains(flushed.next_meta()));
                    Self::lemma_step_keeps(&flushed, new, BundleMode::Meta);
                    assert(new.bundle_map()[loc.bundle] == cid);
                    Self::lemma_read_plain(flushed.infos()[cid], chunks, bytes, new.keys(), cid, i,
                        r, new.infos(), new.lists(), new.blobs());
                },
                BundleMode::Meta => {
                    assert(!put.bundle_map().dom().contains(put.next_data()));
                    Self::lemma_step_keeps(put, &flushed, BundleMode::Data);
                    assert(flushed.writer(mode) == put.writer(mode));
                    assert(flushed.next_id(mode) == put.next_id(mode));
                    assert(flushed.published(new, mode, chunks.len() as int));
                    let cid = new.bundle_map()[loc.bundle];
                    Self::lemma_read_plain(new.infos()[cid], chunks, bytes, new.keys(), cid, i, r,
                        new.infos(), new.lists(), new.blobs());
                },
            }
        }
    }

    /// A step of flushing keeps what the bundle map, and the bundle store of the mapped
    /// bundles, held.
    proof fn lemma_step_keeps(a: &Self, b: &Self, mode: BundleMode)
        requires
            a.step(b, mode),
            !a.bundle_map().dom().contains(a.next_id(mode)),
        ensures
            within(a.bundle_map(), b.bundle_map()),
            within(a.lists(), b.lists()),
            within(a.infos(), b.infos()),
            within(a.blobs(), b.blobs()),
            b.writer(Self::other(mode)) == a.writer(Self::other(mode)),
            b.next_id(Self::other(mode)) == a.next_id(Self::other(mode)),
    {
        match mode {
            BundleMode::Data => {},
            BundleMode::Meta => {},
        }
    }

    /// Both steps of flushing keep what the bundle map and the bundle store held.
    proof fn lemma_steps_keep(a: &Self, m: &Self, b: &Self)
        requires
            a.step(m, BundleMode::Data),
            m.step(b, BundleMode::Meta),
            !a.bundle_map().dom().contains(a.next_data()),
            !a.bundle_map().dom().contains(a.next_meta()),
            a.next_data() != a.next_meta(),
        ensures
            within(a.bundle_map(), b.bundle_map()),
            within(a.lists(), b.lists()),
            within(a.infos(), b.infos()),
            within(a.blobs(), b.blobs()),
    {
        Self::lemma_step_keeps(a, m, BundleMode::Data);
        assert(m.next_id(BundleMode::Meta) == a.next_id(BundleMode::Meta));
        assert(!m.bundle_map().dom().contains(m.next_meta()));
        Self::lemma_step_keeps(m, b, BundleMode::Meta);
        assert forall|k: u32| #[trigger] a.bundle_map().dom().contains(k) implies b.bundle_map().dom().contains(
            k,
        ) && a.bundle_map()[k] == b.bundle_map()[k] by {
            assert(m.bundle_map().dom().contains(k));
        }
        assert forall|k: BundleId| #[trigger] a.lists().dom().contains(k) implies b.lists().dom().contains(
            k,
        ) && a.lists()[k] == b.lists()[k] by {
            assert(m.lists().dom().contains(k));
        }
        assert forall|k: BundleId| #[trigger] a.infos().dom().contains(k) implies b.infos().dom().contains(
            k,
        ) && a.infos()[k] == b.infos()[k] by {
            assert(m.infos().dom().contains(k));
        }
        assert forall|k: BundleId| #[trigger] a.blobs().dom().contains(k) implies b.blobs().dom().contains(
            k,
        ) && a.blobs()[k] == b.blobs()[k] by {
            assert(m.blobs().dom().contains(k));
        }
    }

    /// Reading chunk `i` of a bundle without compression whose blob opens to `bytes` and
    /// whose chunk list records the BLAKE2b fingerprint of the chunk gives the chunk.
    proof fn lemma_read_plain(
        info: crate::bundle::BundleInfo,
        chunks: Seq<ChunkEntry>,
        bytes: Seq<u8>,
        keys: Map<Seq<u8>, crate::crypto::SecretKey>,
        cid: crate::bundle_map::BundleId,
        i: int,
        r: Result<Vec<u8>, RepositoryError>,
        infos: Map<crate::bundle_map::BundleId, crate::bundle::BundleInfo>,
        lists: Map<crate::bundle_map::BundleId, Seq<ChunkEntry>>,
        blobs: Map<crate::bundle_map::BundleId, Seq<u8>>,
    )
        requires
            infos.contains_pair(cid, info),
            lists.contains_pair(cid, chunks),
            blobs.dom().contains(cid),
            crate::codec::opens_to(blobs[cid], info.encryption, bytes),
            crate::codec::key_ready(keys, info.encryption),
            info.compression is None,
            info.hash_method is Blake2,
            0 <= i < chunks.len(),
            crate::bundle::chunk_in_range(bytes, chunks, i),
            chunks[i].hash == crate::hash::blake2_hash(chunk_bytes(bytes, chunks, i)),
            chunk_read(infos, lists, blobs, keys, cid, i, r),
        ensures
            r matches Ok(d) && d@ == chunk_bytes(bytes, chunks, i),
    {
        crate::codec::lemma_unsealed(keys, blobs[cid], info.encryption, bytes);
    }

    /// Round trip, as far as fingerprints tell: a stream that is read back from the listed
    /// chunks of a stream that was written is as long as that stream and falls into the
    /// same pieces, each with the BLAKE2b fingerprint of the piece that was written.
    pub proof fn lemma_round_trip(
        data: Seq<u8>,
        cuts: Seq<int>,
        list: Seq<ChunkEntry>,
        out: Seq<u8>,
        k: int,
    )
        requires
            list.len() == cuts.len(),
            cuts.len() > 0 ==> cuts.last() == data.len(),
            cuts.len() == 0 ==> data.len() == 0,
            forall|j: int|
                0 <= j < list.len() ==> {
                    let from = if j == 0 {
                        0
                    } else {
                        cuts[j - 1]
                    };
                    &&& from <= cuts[j]
                    &&& (#[trigger] list[j]).len == cuts[j] - from
                    &&& list[j].hash == crate::hash::blake2_hash(data.subrange(from, cuts[j]))
                },
            out.len() == total_len(list),
            forall|j: int|
                0 <= j < list.len() ==> crate::hash::blake2_hash(chunk_bytes(out, list, j)) == (
                #[trigger] list[j]).hash,
            0 <= k < list.len(),
        ensures
            out.len() == data.len(),
            crate::bundle::chunk_start(list, k + 1) == cuts[k],
            crate::hash::blake2_hash(
                out.subrange(
                    if k == 0 {
                        0
                    } else {
                        cuts[k - 1]
                    },
                    cuts[k],
                ),
            ) == crate::hash::blake2_hash(
                data.subrange(
                    if k == 0 {
                        0
                    } else {
                        cuts[k - 1]
                    },
                    cuts[k],
                ),
            ),
    {
        Self::lemma_starts(cuts, list, k + 1);
        Self::lemma_starts(cuts, list, k);
        Self::lemma_starts(cuts, list, list.len() as int);
        crate::bundle::lemma_chunk_start_step(list, k);
        assert(list.subrange(0, list.len() as int) =~= list);
        assert(crate::hash::blake2_hash(chunk_bytes(out, list, k)) == list[k].hash);
    }

    /// The chunks of a written stream start where the cuts say.
    proof fn lemma_starts(cuts: Seq<int>, list: Seq<ChunkEntry>, k: int)
        requires
            list.len() == cuts.len(),
            forall|j: int|
                0 <= j < list.len() ==> (#[trigger] list[j]).len == cuts[j] - (if j == 0 {
                    0
                } else {
                    cuts[j - 1]
                }),
            0 <= k <= list.len(),
        ensures
            crate::bundle::chunk_start(list, k) == (if k == 0 {
                0
            } else {
                cuts[k - 1]
            }),
        decreases k,
    {
        if k > 0 {
            Self::lemma_starts(cuts, list, k - 1);
            crate::bundle::lemma_chunk_start_step(list, k - 1);
        } else {
            assert(list.subrange(0, 0) =~= Seq::<ChunkEntry>::empty());
        }
    }

    /// Piece `k` of the stream `data` that is cut at `cuts`.
    pub open spec fn piece(data: Seq<u8>, cuts: Seq<int>, k: int) -> Seq<u8> {
        data.subrange(
            if k == 0 {
                0
            } else {
                cuts[k - 1]
            },
            cuts[k],
        )
    }

    /// Whether `next` is `self` after the chunk `piece` was put with the fingerprint `h`,
    /// which is its fingerprint under the hash method of the configuration.
    pub open spec fn put_step(&self, next: &Self, mode: BundleMode, piece: Seq<u8>, h: hash::Hash) -> bool {
        &&& self.config().hash.hashes_to(piece, h)
        &&& next.same_settings(self)
        &&& exists|loc: Location| #[trigger]
            self.put(next, mode, h, piece, Ok::<Location, RepositoryError>(loc))
    }

    /// Whether `trail` holds the states that putting the first `k` pieces of the stream
    /// `data`, one after the other, led through, and `list` their fingerprints.
    pub open spec fn put_chain(
        trail: Seq<Self>,
        mode: BundleMode,
        data: Seq<u8>,
        cuts: Seq<int>,
        list: Seq<ChunkEntry>,
        k: int,
    ) -> bool {
        &&& trail.len() == k + 1
        &&& 0 <= k <= list.len()
        &&& forall|j: int| 0 <= j < k ==> #[trigger] Self::link(trail, mode, data, cuts, list, j)
    }

    /// Whether putting piece `j` of the stream `data`, with the fingerprint that `list` has
    /// for it, led from state `j` of `trail` to the next.
    pub open spec fn link(
        trail: Seq<Self>,
        mode: BundleMode,
        data: Seq<u8>,
        cuts: Seq<int>,
        list: Seq<ChunkEntry>,
        j: int,
    ) -> bool {
        trail[j].put_step(&trail[j + 1], mode, Self::piece(data, cuts, j), list[j].hash)
    }

    /// A chain of puts with one more put is a chain of puts.
    pub proof fn lemma_chain_push(
        trail: Seq<Self>,
        mode: BundleMode,
        data: Seq<u8>,
        cuts: Seq<int>,
        list: Seq<ChunkEntry>,
        next: Self,
        entry: ChunkEntry,
    )
        requires
            Self::put_chain(trail, mode, data, cuts, list, list.len() as int),
            trail.last().put_step(
                &next,
                mode,
                Self::piece(data, cuts, list.len() as int),
                entry.hash,
            ),
        ensures
            Self::put_chain(
                trail.push(next),
                mode,
                data,
                cuts,
                list.push(entry),
                list.len() as int + 1,
            ),
    {
        let k = list.len() as int;
        let longer = trail.push(next);
        let more = list.push(entry);
        assert forall|j: int| 0 <= j < k + 1 implies #[trigger] Self::link(
            longer,
            mode,
            data,
            cuts,
            more,
            j,
        ) by {
            if j < k {
                assert(Self::link(trail, mode, data, cuts, list, j));
                assert(longer[j] == trail[j] && longer[j + 1] == trail[j + 1]);
                assert(more[j] == list[j]);
            } else {
                assert(longer[j] == trail.last() && longer[j + 1] == next);
            }
        }
    }

    /// Whether writing the stream `data` to `self` came through `trail`, one state for
    /// every piece that was put, and ended in `new`.
    pub open spec fn streamed(
        &self,
        trail: Seq<Self>,
        new: &Self,
        mode: BundleMode,
        data: Seq<u8>,
        list: Seq<ChunkEntry>,
    ) -> bool {
        let cuts = Chunker::of(self.config().chunker).cuts(data, 0);
        &&& Self::put_chain(trail, mode, data, cuts, list, list.len() as int)
        &&& trail[0] == *self
        &&& trail[list.len() as int] == *new
    }

    /// Whether writing the stream `data` to `self` failed with `e`: the pieces before had
    /// been put, which led through `trail` and gave the fingerprints `list`; putting the next
    /// piece, whose fingerprint is `h`, failed with `e` and left `new`.
    pub open spec fn failed_after(
        &self,
        trail: Seq<Self>,
        list: Seq<ChunkEntry>,
        new: &Self,
        mode: BundleMode,
        data: Seq<u8>,
        h: hash::Hash,
        e: RepositoryError,
    ) -> bool {
        let cuts = Chunker::of(self.config().chunker).cuts(data, 0);
        let k = trail.len() - 1;
        &&& Self::put_chain(trail, mode, data, cuts, list, k)
        &&& trail[0] == *self
        &&& k < cuts.len()
        &&& self.config().hash.hashes_to(Self::piece(data, cuts, k), h)
        &&& trail[k].put(
            new,
            mode,
            h,
            Self::piece(data, cuts, k),
            Err::<Location, RepositoryError>(e),
        )
    }

    /// Whether writing the stream `data` to `self` failed with `e`, leaving `new`.
    pub open spec fn stream_failed(
        &self,
        new: &Self,
        mode: BundleMode,
        data: Seq<u8>,
        e: RepositoryError,
    ) -> bool {
        exists|trail: Seq<Self>, list: Seq<ChunkEntry>, h: hash::Hash| #[trigger]
            self.failed_after(trail, list, new, mode, data, h, e)
    }

    /// Whether `list` lists the stream `data` as it was written to `self`, which gave `new`:
    /// one entry for every piece, with the length of the piece and its fingerprint under
    /// the hash method of the configuration, and `new` holds a chunk with each of the
    /// fingerprints.
    pub open spec fn listed_as(&self, new: &Self, data: Seq<u8>, list: Seq<ChunkEntry>) -> bool {
        let cuts = Chunker::of(self.config().chunker).cuts(data, 0);
        &&& list.len() == cuts.len()
        &&& total_len(list) == data.len()
        &&& forall|k: int|
            0 <= k < list.len() ==> {
                let from = if k == 0 {
                    0
                } else {
                    cuts[k - 1]
                };
                &&& (#[trigger] list[k]).len == cuts[k] - from
                &&& self.config().hash.hashes_to(data.subrange(from, cuts[k]), list[k].hash)
                &&& new.holds(list[k].hash)
            }
    }

    /// Deduplication of a stream: after a stream was written and flushed, every piece of it
    /// is indexed, under BLAKE2b; so writing the same bytes again stores nothing, and a
    /// flush after it publishes nothing.
    pub proof fn lemma_stream_known(
        &self,
        put: &Self,
        new: &Self,
        data: Seq<u8>,
        list: Seq<ChunkEntry>,
    )
        requires
            self.listed_as(put, data, list),
            put.wf(),
            put.flushed(new),
            self.config().hash is Blake2,
            new.config() == self.config(),
        ensures
            new.known_stream(data),
            new.writer(BundleMode::Data) is None,
            new.writer(BundleMode::Meta) is None,
    {
        put.lemma_flushed_carried(new);
        let cuts = Chunker::of(self.config().chunker).cuts(data, 0);
        assert forall|k: int, h: hash::Hash|
            0 <= k < cuts.len() && #[trigger] new.config().hash.hashes_to(
                Self::piece(data, cuts, k),
                h,
            ) implies new.index().dom().contains(h) by {
            assert(list[k].hash == h);
            assert(put.holds(h));
            if !put.index().dom().contains(h) {
                assert(put.waits(h));
                assert(new.fresh(put, h));
            }
        }
        let mid = choose|mid: Self| #[trigger]
            put.step(&mid, BundleMode::Data) && mid.step(new, BundleMode::Meta);
        assert(mid.writer(BundleMode::Data) is None);
    }

    /// Whether every piece of the stream `data` is indexed already, under whatever
    /// fingerprint the hash method of the configuration gives it.
    pub open spec fn known_stream(&self, data: Seq<u8>) -> bool {
        let cuts = Chunker::of(self.config().chunker).cuts(data, 0);
        forall|k: int, h: hash::Hash|
            0 <= k < cuts.len() && #[trigger] self.config().hash.hashes_to(
                Self::piece(data, cuts, k),
                h,
            ) ==> self.index().dom().contains(h)
    }

    /// Whether the open bundle of `mode` takes the whole stream `data` without being closed.
    pub open spec fn takes_stream(&self, mode: BundleMode, data: Seq<u8>) -> bool {
        &&& self.pending_data(mode).len() + data.len() < self.config().bundle_size
        &&& self.pending(mode).len() + Chunker::of(self.config().chunker).cuts(data, 0).len()
            < MAX_CHUNKS
    }

    /// Cuts `data` into chunks and puts each as `put_chunk` does, one after the other.
    /// Returns the fingerprint and the length of every chunk, in order: all that is needed
    /// to read the stream back. Fails with `ConfigInvalid` exactly when the configuration
    /// cannot be used, and else only where putting a chunk fails. A stream whose pieces are
    /// all indexed is deduplicated as a whole: nothing is stored and no open bundle is
    /// touched. A stream that the open bundle takes without being closed is always
    /// written, and nothing is published for it.
    pub fn put_stream(&mut self, mode: BundleMode, data: &[u8]) -> (r: Result<
        Vec<ChunkEntry>,
        RepositoryError,
    >)
        requires
            old(self).wf(),
        ensures
            final(self).wf(),
            old(self).consistent() ==> final(self).consistent(),
            final(self).same_settings(old(self)),
            final(self).keeps_hashes_of(old(self)),
            !old(self).config().valid() ==> r == Err::<Vec<ChunkEntry>, RepositoryError>(
                RepositoryError::ConfigInvalid,
            ) && final(self).same_storage(old(self)),
            r matches Err(e) ==> !old(self).config().valid() || (
            crate::repository::storage_failure(e) && old(self).stream_failed(
                final(self),
                mode,
                data@,
                e,
            )),
            r matches Ok(list) ==> exists|trail: Seq<Self>| #[trigger]
                old(self).streamed(trail, final(self), mode, data@, list@),
            old(self).config().valid() && old(self).known_stream(data@) ==> r is Ok
                && final(self).same_storage(old(self)),
            old(self).config().valid() && old(self).takes_stream(mode, data@) ==> r is Ok
                && final(self).index() == old(self).index() && final(self).bundle_map() == old(self).bundle_map() && final(self).infos() == old(self).infos() && final(self).lists()
                == old(self).lists() && final(self).blobs() == old(self).blobs(),
            r matches Ok(list) ==> old(self).listed_as(final(self), data@, list@),
            old(self).stores_known() ==> final(self).stores_known(),
    {
        if !self.get_config().is_valid() {
            return Err(RepositoryError::ConfigInvalid);
        }
        let (r, Ghost(trail), Ghost(listed), Ghost(h)) = self.put_pieces(mode, data);
        proof {
            if r is Ok {
                assert(old(self).streamed(trail, self, mode, data@, r->Ok_0@));
            } else {
                assert(old(self).failed_after(trail, listed, self, mode, data@, h, r->Err_0));
            }
        }
        r
    }

    /// Puts the pieces of a stream one after the other. Hands out, beside the outcome, the
    /// states that the puts led through, the entries that were listed, and the fingerprint
    /// of the piece at which it failed, if it did.
    fn put_pieces(&mut self, mode: BundleMode, data: &[u8]) -> (out: (
        Result<Vec<ChunkEntry>, RepositoryError>,
        Ghost<Seq<Self>>,
        Ghost<Seq<ChunkEntry>>,
        Ghost<hash::Hash>,
    ))
        requires
            old(self).wf(),
            old(self).config().valid(),
        ensures
            final(self).wf(),
            old(self).consistent() ==> final(self).consistent(),
            final(self).same_settings(old(self)),
            final(self).keeps_hashes_of(old(self)),
            out.0 matches Err(e) ==> crate::repository::storage_failure(e) && old(self).failed_after(
                out.1@,
                out.2@,
                final(self),
                mode,
                data@,
                out.3@,
                e,
            ),
            out.0 matches Ok(list) ==> old(self).streamed(out.1@, final(self), mode, data@, list@),
            old(self).known_stream(data@) ==> out.0 is Ok && final(self).same_storage(old(self)),
            old(self).takes_stream(mode, data@) ==> out.0 is Ok && final(self).index() == old(self).index() && final(self).bundle_map() == old(self).bundle_map() && final(self).infos()
                == old(self).infos() && final(self).lists() == old(self).lists() && final(self).blobs() == old(self).blobs(),
            out.0 matches Ok(list) ==> old(self).listed_as(final(self), data@, list@),
            old(self).stores_known() ==> final(self).stores_known(),
    {
        let config = self.get_config();
        let chunker = Chunker::create(config.chunker);
        let cuts = chunker.chunk(data);
        let ghost marks = cuts@.map_values(|c: usize| c as int);
        let mut list: Vec<ChunkEntry> = Vec::new();
        let mut from: usize = 0;
        let mut k: usize = 0;
        let ghost mut trail: Seq<Self> = seq![*self];
        while k < cuts.len()
            invariant
                self.wf(),
                chunker.wf(),
                old(self).stores_known() ==> self.stores_known(),
                trail.len() == k + 1,
                trail[0] == *old(self),
                trail[k as int] == *self,
                Self::put_chain(trail, mode, data@, marks, list@, k as int),
                old(self).known_stream(data@) ==> self.same_storage(old(self)),
                old(self).consistent() ==> self.consistent(),
                self.same_settings(old(self)),
                self.keeps_hashes_of(old(self)),
                config == old(self).config(),
                config.valid(),
                chunker == Chunker::of(config.chunker),
                marks == chunker.cuts(data@, 0),
                old(self).takes_stream(mode, data@) ==> {
                    &&& self.pending_data(mode).len() + data@.len() - from < config.bundle_size
                    &&& self.pending(mode).len() + cuts@.len() - k < MAX_CHUNKS
                    &&& self.index() == old(self).index()
                    &&& self.bundle_map() == old(self).bundle_map()
                    &&& self.infos() == old(self).infos()
                    &&& self.lists() == old(self).lists()
                    &&& self.blobs() == old(self).blobs()
                },
                marks == cuts@.map_values(|c: usize| c as int),
                chunker.cuts_ok(data@, marks),
                k <= cuts@.len(),
                list@.len() == k,
                from == (if k == 0 {
                    0
                } else {
                    marks[k - 1]
                }),
                from <= data@.len(),
                total_len(list@) == from,
                forall|j: int|
                    0 <= j < k ==> {
                        let f = if j == 0 {
                            0
                        } else {
                            marks[j - 1]
                        };
                        &&& (#[trigger] list@[j]).len == marks[j] - f
                        &&& config.hash.hashes_to(data@.subrange(f, marks[j]), list@[j].hash)
                        &&& self.holds(list@[j].hash)
                    },
            decreases cuts@.len() - k,
        {
            let to = cuts[k];
            proof {
                assert(marks[k as int] == to);
                assert(chunker.cut_ok(data@, marks, k as int));
            }
            let piece = slice_range(data, from, to);
            let h = config.hash.hash(piece);
            let ghost before = *self;
            proof {
                assert(piece@ == Self::piece(data@, marks, k as int));
                if old(self).known_stream(data@) {
                    assert(old(self).config().hash.hashes_to(
                        Self::piece(data@, marks, k as int),
                        h,
                    ));
                    assert(old(self).index().dom().contains(h));
                }
            }
            let found = self.index.get(&h);
            match found {
                Some(loc) => {
                    proof {
                        assert(before.put(
                            self,
                            mode,
                            h,
                            piece@,
                            Ok::<Location, RepositoryError>(loc),
                        ));
                    }
                },
                None => {
                    match self.put_chunk_override(mode, h, piece) {
                        Ok(loc) => {
                            proof {
                                before.lemma_written_holds(self, mode, h, piece@, loc);
                                assert(before.put(
                                    self,
                                    mode,
                                    h,
                                    piece@,
                                    Ok::<Location, RepositoryError>(loc),
                                ));
                            }
                        },
                        Err(e) => {
                            proof {
                                assert(old(self).failed_after(
                                    trail,
                                    list@,
                                    self,
                                    mode,
                                    data@,
                                    h,
                                    e,
                                ));
                            }
                            return (Err(e), Ghost(trail), Ghost(list@), Ghost(h));
                        },
                    }
                },
            }
            let ghost prev = list@;
            let ghost walked = trail;
            list.push(ChunkEntry { hash: h, len: (to - from) as u32 });
            proof {
                trail = trail.push(*self);
                assert(walked.last() == before);
                assert(before.put_step(self, mode, piece@, h));
                Self::lemma_chain_push(
                    walked,
                    mode,
                    data@,
                    marks,
                    prev,
                    *self,
                    ChunkEntry { hash: h, len: (to - from) as u32 },
                );
                assert(list@ == prev.push(ChunkEntry { hash: h, len: (to - from) as u32 }));
                assert(list@.drop_last() =~= prev);
                assert forall|j: int| 0 <= j < k + 1 implies self.holds((#[trigger] list@[j]).hash) by {
                    if j < k {
                        assert(list@[j] == prev[j]);
                        assert(before.holds(prev[j].hash));
                    }
                }
            }
            from = to;
            k += 1;
        }
        proof {
            if cuts@.len() > 0 {
                assert(marks.last() == data@.len());
            }
            assert(old(self).listed_as(self, data@, list@));
            assert(old(self).streamed(trail, self, mode, data@, list@));
        }
        let ghost listed = list@;
        (Ok(list), Ghost(trail), Ghost(listed), Ghost(hash::Hash { high: 0, low: 0 }))
    }

    /// Whether piece `k` of the stream `out` is what the list asks for: its fingerprint is
    /// indexed and, in a repository whose index is sound, it is the fingerprint of the piece
    /// under the hash method of the bundle it was read from.
    pub open spec fn piece_ok(&self, out: Seq<u8>, list: Seq<ChunkEntry>, k: int) -> bool {
        &&& self.index().dom().contains(list[k].hash)
        &&& self.consistent() ==> self.method_of(list[k].hash).hashes_to(
            chunk_bytes(out, list, k),
            list[k].hash,
        )
    }

    /// Whether reading the chunk with fingerprint `h` gave `r`. A fingerprint that is not
    /// indexed gives `ChunkMissing`, a location in a bundle that the bundle map does not hold
    /// `BundleIdMissing`; else the outcome is one of reading the chunk at the location.
    pub open spec fn read_by_hash(&self, h: hash::Hash, r: Result<Vec<u8>, RepositoryError>) -> bool {
        if !self.index().dom().contains(h) {
            r == Err::<Vec<u8>, RepositoryError>(RepositoryError::ChunkMissing(h))
        } else if !self.bundle_map().dom().contains(self.index()[h].bundle) {
            r == Err::<Vec<u8>, RepositoryError>(
                RepositoryError::BundleIdMissing(self.index()[h].bundle),
            )
        } else {
            chunk_read(
                self.infos(),
                self.lists(),
                self.blobs(),
                self.keys(),
                self.bundle_map()[self.index()[h].bundle],
                self.index()[h].chunk as int,
                r,
            )
        }
    }

    /// Whether piece `k` of the stream `out` was read: reading the chunk with the listed
    /// fingerprint gave the piece.
    pub open spec fn piece_read(&self, out: Seq<u8>, list: Seq<ChunkEntry>, k: int) -> bool {
        exists|data: Vec<u8>|
            data@ == chunk_bytes(out, list, k) && #[trigger] self.read_by_hash(
                list[k].hash,
                Ok::<Vec<u8>, RepositoryError>(data),
            )
    }

    /// Whether reading the stream failed with `e` at chunk `k`: reading the chunk failed
    /// with `e`, or gave bytes of another length than the listed one and `e` is
    /// `IndexCorrupt`.
    pub open spec fn read_failed(&self, list: Seq<ChunkEntry>, k: int, e: RepositoryError) -> bool {
        ||| self.read_by_hash(list[k].hash, Err::<Vec<u8>, RepositoryError>(e))
        ||| e == RepositoryError::IndexCorrupt && exists|data: Vec<u8>|
            data@.len() != list[k].len && #[trigger] self.read_by_hash(
                list[k].hash,
                Ok::<Vec<u8>, RepositoryError>(data),
            )
    }

    /// Reads back a stream from the fingerprints and lengths of its chunks. What is returned
    /// falls into pieces of the listed lengths, each of them what reading the chunk with the
    /// listed fingerprint gave; in a repository whose index is sound, each piece has its
    /// listed fingerprint under the hash method of the bundle it was read from. The stream
    /// is returned unless reading one of its chunks fails: an empty list gives an empty
    /// stream.
    pub fn get_stream(&self, list: &Vec<ChunkEntry>) -> (r: Result<Vec<u8>, RepositoryError>)
        requires
            self.wf(),
        ensures
            r matches Ok(out) ==> {
                &&& out@.len() == total_len(list@)
                &&& forall|k: int| 0 <= k < list@.len() ==> #[trigger] self.piece_ok(out@, list@, k)
                &&& forall|k: int|
                    0 <= k < list@.len() ==> #[trigger] self.piece_read(out@, list@, k)
            },
            r matches Err(e) ==> exists|k: int|
                0 <= k < list@.len() && #[trigger] self.read_failed(list@, k, e),
            r matches Err(RepositoryError::ChunkMissing(h)) ==> !self.index().dom().contains(h),
            r matches Err(e) ==> crate::repository::storage_failure(e),
    {
        let mut out: Vec<u8> = Vec::new();
        let mut cache = DecodedCache::new(CACHE_BUNDLES);
        let mut k: usize = 0;
        while k < list.len()
            invariant
                self.wf(),
                cache.wf(),
                self.cache_sound(cache@),
                k <= list@.len(),
                out@.len() == crate::bundle::chunk_start(list@, k as int),
                forall|j: int| 0 <= j < k ==> #[trigger] self.piece_ok(out@, list@, j),
                forall|j: int| 0 <= j < k ==> #[trigger] self.piece_read(out@, list@, j),
            decreases list@.len() - k,
        {
            let entry = list[k];
            let loc = match self.index.get(&entry.hash) {
                Some(loc) => loc,
                None => {
                    assert(self.read_failed(
                        list@,
                        k as int,
                        RepositoryError::ChunkMissing(entry.hash),
                    ));
                    return Err(RepositoryError::ChunkMissing(entry.hash));
                },
            };
            let data = match self.get_chunk_cached(&mut cache, loc) {
                Ok(d) => d,
                Err(e) => {
                    assert(self.read_failed(list@, k as int, e));
                    return Err(e);
                },
            };
            assert(self.read_by_hash(entry.hash, Ok::<Vec<u8>, RepositoryError>(data)));
            proof {
                if self.consistent() {
                    assert(crate::repository::entry_ok(
                        self.bundle_map(),
                        self.lists(),
                        entry.hash,
                        loc,
                    ));
                }
            }
            if data.len() != entry.len as usize {
                assert(self.read_failed(list@, k as int, RepositoryError::IndexCorrupt));
                return Err(RepositoryError::IndexCorrupt);
            }
            let ghost prev = out@;
            append(&mut out, &data);
            proof {
                crate::bundle::lemma_chunk_start_step(list@, k as int);
                assert(chunk_bytes(out@, list@, k as int) =~= data@);
                assert(self.piece_ok(out@, list@, k as int));
                assert(self.piece_read(out@, list@, k as int));
                assert forall|j: int| 0 <= j < k implies #[trigger] self.piece_read(
                    out@,
                    list@,
                    j,
                ) by {
                    assert(self.piece_read(prev, list@, j));
                    crate::bundle::lemma_chunk_start_step(list@, j);
                    crate::bundle::lemma_chunk_start_monotonic(list@, j + 1, k as int);
                    assert(chunk_bytes(out@, list@, j) =~= chunk_bytes(prev, list@, j));
                }
                assert forall|j: int| 0 <= j < k implies #[trigger] self.piece_ok(
                    out@,
                    list@,
                    j,
                ) by {
                    assert(self.piece_ok(prev, list@, j));
                    crate::bundle::lemma_chunk_start_step(list@, j);
                    crate::bundle::lemma_chunk_start_monotonic(list@, j + 1, k as int);
                    assert(chunk_bytes(out@, list@, j) =~= chunk_bytes(prev, list@, j));
                }
            }
            k += 1;
        }
        proof {
            assert(list@.subrange(0, k as int) =~= list@);
        }
        Ok(out)
    }

    /// The hash method of the bundle that the indexed fingerprint `h` points into.
    pub open spec fn method_of(&self, h: hash::Hash) -> crate::hash::HashMethod {
        self.infos()[self.bundle_map()[self.index()[h].bundle]].hash_method
    }

    /// Writing a chunk is writing and publishing; afterwards the chunk waits, or it is
    /// indexed in a bundle that was not mapped before.
    pub proof fn lemma_written_carried(
        &self,
        new: &Self,
        mode: BundleMode,
        h: hash::Hash,
        data: Seq<u8>,
        loc: Location,
    )
        requires
            self.wf(),
            self.written(new, mode, h, data, Ok::<Location, RepositoryError>(loc)),
        ensures
            self.carried(new),
            new.waits(h) || new.fresh(self, h),
    {
        self.lemma_wf();
        let mid = choose|mid: Self| #[trigger]
            self.appended(&mid, mode, h, data) && mid.full(mode) == self.fills(mode, data.len())
                && (if mid.full(mode) {
                mid.published(new, mode, mid.pending(mode).len() as int)
            } else {
                new.same_storage(&mid)
            });
        let chunks = mid.pending(mode);
        let last = chunks.len() - 1;
        let rest = Self::other(mode);
        assert(chunks[last].hash == h);
        assert(Self::listed(chunks, h));
        assert(mid.pending(rest) == self.pending(rest));
        assert forall|g: hash::Hash| #[trigger] self.waits(g) implies mid.waits(g) by {
            if Self::listed(self.pending(mode), g) {
                let i = choose|i: int|
                    0 <= i < self.pending(mode).len() && (#[trigger] self.pending(mode)[i]).hash
                        == g;
                assert(chunks[i].hash == g);
                assert(Self::listed(mid.pending(mode), g));
            }
            match mode {
                BundleMode::Data => {},
                BundleMode::Meta => {},
            }
        }
        assert(self.carried(&mid));
        assert(mid.waits(h)) by {
            match mode {
                BundleMode::Data => {},
                BundleMode::Meta => {},
            }
        }
        if mid.full(mode) {
            assert(mid.next_id(mode) == self.next_id(mode)) by {
                match mode {
                    BundleMode::Data => {},
                    BundleMode::Meta => {},
                }
            }
            mid.lemma_published_carried(new, mode);
            self.lemma_carried_twice(&mid, new);
            assert(new.index()[h].bundle == mid.next_id(mode));
        } else {
            assert(mid.carried(new)) by {
                assert(new.pending(BundleMode::Data) == mid.pending(BundleMode::Data));
                assert(new.pending(BundleMode::Meta) == mid.pending(BundleMode::Meta));
            }
            self.lemma_carried_twice(&mid, new);
            assert(new.waits(h)) by {
                assert(new.pending(BundleMode::Data) == mid.pending(BundleMode::Data));
                assert(new.pending(BundleMode::Meta) == mid.pending(BundleMode::Meta));
            }
        }
    }

    /// A chunk that was written is held, and what was held is held still.
    pub proof fn lemma_written_holds(
        &self,
        new: &Self,
        mode: BundleMode,
        h: hash::Hash,
        data: Seq<u8>,
        loc: Location,
    )
        requires
            self.wf(),
            self.written(new, mode, h, data, Ok::<Location, RepositoryError>(loc)),
        ensures
            new.holds(h),
            forall|g: hash::Hash| self.holds(g) ==> #[trigger] new.holds(g),
    {
        self.lemma_wf();
        let mid = choose|mid: Self| #[trigger]
            self.appended(&mid, mode, h, data) && mid.full(mode) == self.fills(mode, data.len())
                && (if mid.full(mode) {
                mid.published(new, mode, mid.pending(mode).len() as int)
            } else {
                new.same_storage(&mid)
            });
        let chunks = mid.pending(mode);
        let last = chunks.len() - 1;
        let rest = Self::other(mode);
        assert(chunks[last].hash == h);
        assert(new.pending(rest) == self.pending(rest));
        if mid.full(mode) {
            crate::index::lemma_apply_chunks(
                mid.index(),
                chunks,
                mid.next_id(mode),
                chunks.len() as int,
            );
            assert(new.index().dom().contains(chunks[last].hash));
        } else {
            assert(new.pending(mode) == chunks);
            assert(Self::listed(new.pending(mode), h));
        }
        assert(new.holds(h)) by {
            match mode {
                BundleMode::Data => {},
                BundleMode::Meta => {},
            }
        }
        assert forall|g: hash::Hash| self.holds(g) implies #[trigger] new.holds(g) by {
            if self.index().dom().contains(g) {
                assert(new.index().dom().contains(g));
            } else if Self::listed(self.pending(mode), g) {
                let i = choose|i: int|
                    0 <= i < self.pending(mode).len() && (#[trigger] self.pending(mode)[i]).hash
                        == g;
                assert(chunks[i].hash == g);
                if mid.full(mode) {
                    assert(new.index().dom().contains(chunks[i].hash));
                } else {
                    assert(Self::listed(new.pending(mode), g));
                }
                match mode {
                    BundleMode::Data => {},
                    BundleMode::Meta => {},
                }
            } else {
                match mode {
                    BundleMode::Data => {},
                    BundleMode::Meta => {},
                }
                assert(Self::listed(self.pending(rest), g));
                assert(Self::listed(new.pending(rest), g));
            }
        }
    }
}

/// The part `data[from..to]` of a slice.
fn slice_range(data: &[u8], from: usize, to: usize) -> (out: &[u8])
    requires
        from <= to <= data@.len(),
    ensures
        out@ == data@.subrange(from as int, to as int),
{
    vstd::slice::slice_subrange(data, from, to)
}

/// Appends `bytes` to `out`.
fn append(out: &mut Vec<u8>, bytes: &Vec<u8>)
    ensures
        final(out)@ == old(out)@ + bytes@,
{
    let mut i: usize = 0;
    while i < bytes.len()
        invariant
            i <= bytes@.len(),
            out@ == old(out)@ + bytes@.subrange(0, i as int),
        decreases bytes@.len() - i,
    {
        out.push(bytes[i]);
        assert(out@ =~= old(out)@ + bytes@.subrange(0, i + 1));
        i += 1;
    }
    assert(bytes@.subrange(0, bytes@.len() as int) =~= bytes@);
}

} // verus!
