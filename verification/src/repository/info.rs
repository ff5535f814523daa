use crate::bundle::{BundleInfo, BundleMode, ChunkEntry};
use crate::bundle_map::BundleId;
use crate::codec::Compressor;
use crate::error::RepositoryError;
use crate::hash;
use crate::index::Location;
use crate::repository::Repository;
use vstd::prelude::*;

verus! {

/// Sizes and counts of a repository.
#[derive(Clone, Copy, Debug, PartialEq, Eq, Structural)]
pub struct RepositoryInfo {
    /// Number of bundles that the bundle store knows.
    pub bundle_count: usize,
    /// Sum of the encoded sizes of those bundles, or `u64::MAX` if it is larger.
    pub encoded_data_size: u64,
    /// Sum of the raw sizes of those bundles, or `u64::MAX` if it is larger.
    pub raw_data_size: u64,
    /// Sum of the chunk counts of those bundles, or `u64::MAX` if it is larger.
    pub chunk_count: u64,
    /// Number of index entries.
    pub index_entries: usize,
    /// Number of index slots.
    pub index_capacity: usize,
}

/// How much of a bundle is in use.
#[derive(Debug)]
pub struct BundleAnalysis {
    /// The small id of the bundle.
    pub id: u32,
    pub info: BundleInfo,
    /// For each chunk of the bundle, whether it is in use.
    pub chunk_usage: Vec<bool>,
    /// Sum of the lengths of the chunks in use.
    pub used_size: usize,
    /// Sum of the lengths of the chunks not in use.
    pub unused_size: usize,
}

/// `a + b`, or `u64::MAX` if that is larger.
pub open spec fn clip_add(a: u64, b: int) -> u64 {
    if a + b > u64::MAX {
        u64::MAX
    } else {
        (a + b) as u64
    }
}

/// Sum of the encoded sizes of the first `upto` headers, clipped at `u64::MAX`.
pub open spec fn encoded_total(infos: Seq<BundleInfo>, upto: int) -> u64
    decreases upto,
{
    if upto <= 0 {
        0
    } else {
        clip_add(encoded_total(infos, upto - 1), infos[upto - 1].encoded_size as int)
    }
}

/// Sum of the raw sizes of the first `upto` headers, clipped at `u64::MAX`.
pub open spec fn raw_total(infos: Seq<BundleInfo>, upto: int) -> u64
    decreases upto,
{
    if upto <= 0 {
        0
    } else {
        clip_add(raw_total(infos, upto - 1), infos[upto - 1].raw_size as int)
    }
}

/// Sum of the chunk counts of the first `upto` headers, clipped at `u64::MAX`.
pub open spec fn chunk_total(infos: Seq<BundleInfo>, upto: int) -> u64
    decreases upto,
{
    if upto <= 0 {
        0
    } else {
        clip_add(chunk_total(infos, upto - 1), infos[upto - 1].chunk_count as int)
    }
}

/// Whether chunk `i` of bundle `bundle`, with fingerprint `h`, is in use: the index maps
/// `h` to this bundle at this place.
pub open spec fn in_use(index: Map<hash::Hash, Location>, h: hash::Hash, bundle: u32, i: int) -> bool {
    index.dom().contains(h) && index[h].bundle == bundle && index[h].chunk == i
}

/// Sum of the lengths of the chunks in use among the first `upto` chunks of a bundle.
pub open spec fn used_len(
    index: Map<hash::Hash, Location>,
    chunks: Seq<ChunkEntry>,
    bundle: u32,
    upto: int,
) -> nat
    decreases upto,
{
    if upto <= 0 {
        0
    } else {
        used_len(index, chunks, bundle, upto - 1) + (if in_use(
            index,
            chunks[upto - 1].hash,
            bundle,
            upto - 1,
        ) {
            chunks[upto - 1].len as nat
        } else {
            0
        })
    }
}

/// No more is in use than there is.
pub proof fn lemma_used_len(
    index: Map<hash::Hash, Location>,
    chunks: Seq<ChunkEntry>,
    bundle: u32,
    upto: int,
)
    requires
        0 <= upto <= chunks.len(),
    ensures
        used_len(index, chunks, bundle, upto) <= crate::bundle::chunk_start(chunks, upto),
    decreases upto,
{
    if upto > 0 {
        lemma_used_len(index, chunks, bundle, upto - 1);
        crate::bundle::lemma_chunk_start_step(chunks, upto - 1);
    } else {
        assert(chunks.subrange(0, 0) =~= Seq::<ChunkEntry>::empty());
    }
}

fn add_clipped(a: u64, b: usize) -> (r: u64)
    ensures
        r == clip_add(a, b as int),
{
    let b64 = b as u64;
    if a > u64::MAX - b64 {
        u64::MAX
    } else {
        a + b64
    }
}

impl BundleAnalysis {
    /// Whether this is the analysis of bundle `id` with header `info` and chunk list `chunks`
    /// under the index `index`.
    pub open spec fn describes(
        &self,
        index: Map<hash::Hash, Location>,
        id: u32,
        info: BundleInfo,
        chunks: Seq<ChunkEntry>,
    ) -> bool {
        &&& self.id == id
        &&& self.info == info
        &&& self.chunk_usage@.len() == chunks.len()
        &&& forall|i: int|
            0 <= i < chunks.len() ==> #[trigger] self.chunk_usage@[i] == in_use(
                index,
                chunks[i].hash,
                id,
                i,
            )
        &&& self.used_size == used_len(index, chunks, id, chunks.len() as int)
        &&& self.used_size + self.unused_size == info.raw_size
    }

    /// Whether at most `percent` hundredths of the bundle's bytes are in use. A bundle
    /// without bytes is at every ratio.
    pub open spec fn usage_at_most(&self, percent: u32) -> bool {
        self.used_size * 100 <= percent * self.info.raw_size
    }

    /// Whether at most `percent` hundredths of the bundle's bytes are in use.
    pub fn get_usage_at_most(&self, percent: u32) -> (r: bool)
        ensures
            r == self.usage_at_most(percent),
    {
        let used = self.used_size as u128;
        let total = self.info.raw_size as u128;
        assert(used * 100 <= 0xffff_ffff_ffff_ffff * 100 && (percent as u128) * total
            <= 0xffff_ffff * 0xffff_ffff_ffff_ffff) by (nonlinear_arith)
            requires
                used <= 0xffff_ffff_ffff_ffff,
                total <= 0xffff_ffff_ffff_ffff,
                percent <= 0xffff_ffff,
        ;
        used * 100 <= (percent as u128) * total
    }

    /// The number of bytes in use.
    pub fn get_used_size(&self) -> (r: usize)
        ensures
            r == self.used_size,
    {
        self.used_size
    }

    /// The number of bytes not in use.
    pub fn get_unused_size(&self) -> (r: usize)
        ensures
            r == self.unused_size,
    {
        self.unused_size
    }
}

impl<C: Compressor> Repository<C> {
    /// The headers of all known bundles.
    pub fn list_bundles(&self) -> (out: Vec<BundleInfo>)
        requires
            self.wf(),
        ensures
            out@ == self.bundle_headers(),
            forall|k: int|
                0 <= k < out@.len() ==> self.infos().contains_pair((#[trigger] out@[k]).id, out@[k]),
            forall|id: BundleId|
                self.infos().dom().contains(id) ==> exists|k: int|
                    0 <= k < out@.len() && (#[trigger] out@[k]).id == id,
    {
        let out = self.bundles.list_bundles();
        proof {
            self.bundles.lemma_views();
            assert(out@ =~= self.bundle_headers());
            let metas = self.bundles.local_metas();
            assert forall|k: int| 0 <= k < out@.len() implies self.infos().contains_pair(
                (#[trigger] out@[k]).id,
                out@[k],
            ) by {
                assert(metas[k].wf());
            }
            assert forall|id: BundleId| self.infos().dom().contains(id) implies exists|k: int|
                0 <= k < out@.len() && (#[trigger] out@[k]).id == id by {
                assert(self.bundles.infos().dom().contains(id));
                assert(crate::bundle_db::metas_list(metas, id));
                let k = choose|k: int| 0 <= k < metas.len() && (#[trigger] metas[k]).info.id == id;
                assert(out@[k].id == id);
            }
        }
        out
    }

    /// The header of the bundle with content-id `id`.
    pub fn get_bundle(&self, id: &BundleId) -> (r: Option<BundleInfo>)
        requires
            self.wf(),
        ensures
            r == (if self.infos().dom().contains(*id) {
                Some(self.infos()[*id])
            } else {
                None
            }),
    {
        self.bundles.get_bundle_info(id)
    }

    /// The headers that are listed are those of the known bundles, each once: every header
    /// is the one that the bundle store has under its content-id, every known bundle has
    /// its header listed, and no two headers share a content-id.
    pub proof fn lemma_headers(&self)
        requires
            self.wf(),
        ensures
            forall|k: int|
                0 <= k < self.bundle_headers().len() ==> self.infos().contains_pair(
                    (#[trigger] self.bundle_headers()[k]).id,
                    self.bundle_headers()[k],
                ),
            forall|id: BundleId|
                self.infos().dom().contains(id) ==> exists|k: int|
                    0 <= k < self.bundle_headers().len() && (#[trigger] self.bundle_headers()[k]).id
                        == id,
            forall|j: int, k: int|
                0 <= j < k < self.bundle_headers().len() ==> (#[trigger] self.bundle_headers()[j]).id
                    != (#[trigger] self.bundle_headers()[k]).id,
            self.infos() == Map::<BundleId, BundleInfo>::empty() ==> self.bundle_headers().len()
                == 0,
    {
        self.bundles.lemma_views();
        let metas = self.bundles.local_metas();
        let out = self.bundle_headers();
        assert forall|k: int| 0 <= k < out.len() implies self.infos().contains_pair(
            (#[trigger] out[k]).id,
            out[k],
        ) by {
            assert(metas[k].wf());
        }
        assert forall|id: BundleId| self.infos().dom().contains(id) implies exists|k: int|
            0 <= k < out.len() && (#[trigger] out[k]).id == id by {
            assert(self.bundles.infos().dom().contains(id));
            assert(crate::bundle_db::metas_list(metas, id));
            let k = choose|k: int| 0 <= k < metas.len() && (#[trigger] metas[k]).info.id == id;
            assert(out[k].id == id);
        }
        assert forall|j: int, k: int| 0 <= j < k < out.len() implies (#[trigger] out[j]).id != (
        #[trigger] out[k]).id by {
            assert(metas[j].info.id != metas[k].info.id);
        }
        if out.len() > 0 {
            assert(self.infos().dom().contains(out[0].id));
        }
    }

    /// Sizes and counts of the repository. A repository that knows no bundle reports none.
    pub fn info(&self) -> (info: RepositoryInfo)
        requires
            self.wf(),
        ensures
            self.infos() == Map::<BundleId, BundleInfo>::empty() ==> info.bundle_count == 0
                && info.encoded_data_size == 0 && info.raw_data_size == 0 && info.chunk_count == 0,
            info.bundle_count == self.bundle_headers().len(),
            info.encoded_data_size == encoded_total(
                self.bundle_headers(),
                self.bundle_headers().len() as int,
            ),
            info.raw_data_size == raw_total(
                self.bundle_headers(),
                self.bundle_headers().len() as int,
            ),
            info.chunk_count == chunk_total(
                self.bundle_headers(),
                self.bundle_headers().len() as int,
            ),
            info.index_entries == self.index().dom().len(),
            info.index_capacity == self.index_capacity(),
    {
        let bundles = self.list_bundles();
        proof {
            self.lemma_headers();
        }
        let mut encoded: u64 = 0;
        let mut raw: u64 = 0;
        let mut chunks: u64 = 0;
        let mut k: usize = 0;
        while k < bundles.len()
            invariant
                k <= bundles@.len(),
                encoded == encoded_total(bundles@, k as int),
                raw == raw_total(bundles@, k as int),
                chunks == chunk_total(bundles@, k as int),
            decreases bundles@.len() - k,
        {
            encoded = add_clipped(encoded, bundles[k].encoded_size);
            raw = add_clipped(raw, bundles[k].raw_size);
            chunks = add_clipped(chunks, bundles[k].chunk_count);
            k += 1;
        }
        RepositoryInfo {
            bundle_count: bundles.len(),
            encoded_data_size: encoded,
            raw_data_size: raw,
            chunk_count: chunks,
            index_entries: self.index.len(),
            index_capacity: self.index.capacity(),
        }
    }

    /// Works out, for the bundle behind the small id `id`, which of its chunks are in use.
    pub fn analyze_bundle(&self, id: u32) -> (r: Result<BundleAnalysis, RepositoryError>)
        requires
            self.wf(),
        ensures
            match r {
                Ok(a) => {
                    &&& self.bundle_map().dom().contains(id)
                    &&& self.infos().dom().contains(self.bundle_map()[id])
                    &&& a.describes(
                        self.index(),
                        id,
                        self.infos()[self.bundle_map()[id]],
                        self.lists()[self.bundle_map()[id]],
                    )
                },
                Err(e) => if !self.bundle_map().dom().contains(id) {
                    e == RepositoryError::BundleIdMissing(id)
                } else {
                    e == RepositoryError::BundleMissing(self.bundle_map()[id]) && !self.infos().dom().contains(
                        self.bundle_map()[id],
                    )
                },
            },
    {
        proof {
            self.lemma_wf();
        }
        let cid = match self.bundle_map.get(id) {
            Some(c) => c,
            None => {
                return Err(RepositoryError::BundleIdMissing(id));
            },
        };
        let info = match self.bundles.get_bundle_info(&cid) {
            Some(i) => i,
            None => {
                return Err(RepositoryError::BundleMissing(cid));
            },
        };
        let chunks = self.bundles.get_chunk_list(&cid).unwrap();
        let mut usage: Vec<bool> = Vec::new();
        let mut used: usize = 0;
        let mut i: usize = 0;
        while i < chunks.len()
            invariant
                self.wf(),
                i <= chunks@.len(),
                chunks@.len() <= crate::bundle::MAX_CHUNKS,
                crate::bundle::total_len(chunks@) == info.raw_size,
                usage@.len() == i,
                forall|j: int|
                    0 <= j < i ==> #[trigger] usage@[j] == in_use(
                        self.index(),
                        chunks@[j].hash,
                        id,
                        j,
                    ),
                used == used_len(self.index(), chunks@, id, i as int),
            decreases chunks@.len() - i,
        {
            let entry = chunks[i];
            let live = match self.index.get(&entry.hash) {
                Some(loc) => loc.bundle == id && loc.chunk as usize == i,
                None => false,
            };
            proof {
                lemma_used_len(self.index(), chunks@, id, i + 1);
                crate::bundle::lemma_chunk_start_monotonic(
                    chunks@,
                    i + 1,
                    chunks@.len() as int,
                );
                crate::bundle::lemma_chunk_start_step(chunks@, i as int);
            }
            if live {
                used = used + entry.len as usize;
            }
            usage.push(live);
            i += 1;
        }
        proof {
            lemma_used_len(self.index(), chunks@, id, chunks@.len() as int);
            assert(chunks@.subrange(0, chunks@.len() as int) =~= chunks@);
        }
        Ok(
            BundleAnalysis {
                id,
                info,
                chunk_usage: usage,
                used_size: used,
                unused_size: info.raw_size - used,
            },
        )
    }

    /// Whether `list[k]` is the analysis of the bundle in row `k` of the bundle map.
    pub open spec fn analysed(&self, list: Seq<BundleAnalysis>, k: int) -> bool {
        let row = self.bundle_rows()[k];
        &&& self.bundle_map().contains_pair(row.id, row.bundle)
        &&& self.infos().dom().contains(row.bundle)
        &&& list[k].describes(
            self.index(),
            row.id,
            self.infos()[row.bundle],
            self.lists()[row.bundle],
        )
    }

    /// Whether the bundle store knows every bundle that the bundle map holds.
    pub open spec fn all_known(&self) -> bool {
        forall|id: u32| #[trigger]
            self.bundle_map().dom().contains(id) ==> self.infos().dom().contains(
                self.bundle_map()[id],
            )
    }

    /// Works out, for every bundle of the bundle map, which of its chunks are in use: a
    /// chunk is in use if the index maps its fingerprint to this bundle at this place. The
    /// analyses come in the order of the bundle map's rows. Fails exactly when the bundle
    /// map holds a bundle that the bundle store does not know.
    pub fn analyze_usage(&self) -> (r: Result<Vec<BundleAnalysis>, RepositoryError>)
        requires
            self.wf(),
        ensures
            r is Ok <==> self.all_known(),
            match r {
                Ok(list) => {
                    &&& list@.len() == self.bundle_rows().len()
                    &&& forall|k: int| 0 <= k < list@.len() ==> #[trigger] self.analysed(list@, k)
                },
                Err(e) => exists|k: int|
                    0 <= k < self.bundle_rows().len() && e == RepositoryError::BundleMissing(
                        (#[trigger] self.bundle_rows()[k]).bundle,
                    ) && !self.infos().dom().contains(self.bundle_rows()[k].bundle)
                        && self.bundle_map().contains_pair(
                        self.bundle_rows()[k].id,
                        self.bundle_rows()[k].bundle,
                    ),
            },
    {
        proof {
            self.bundle_map.lemma_injective();
        }
        let rows = self.bundle_map.bundles();
        let mut list: Vec<BundleAnalysis> = Vec::new();
        let mut k: usize = 0;
        while k < rows.len()
            invariant
                self.wf(),
                k <= rows@.len(),
                rows@ == self.bundle_rows(),
                crate::bundle_map::rows_injective(rows@),
                self.bundle_map() == crate::bundle_map::rows_map(rows@),
                list@.len() == k,
                forall|j: int| 0 <= j < k ==> #[trigger] self.analysed(list@, j),
            decreases rows@.len() - k,
        {
            let row = rows[k];
            proof {
                assert(crate::bundle_map::rows_map(rows@).dom().contains(row.id));
                let c = choose|c: int| 0 <= c < rows@.len() && (#[trigger] rows@[c]).id == row.id;
                if c < k {
                    assert(rows@[c].id != rows@[k as int].id);
                }
                if (k as int) < c {
                    assert(rows@[k as int].id != rows@[c].id);
                }
                assert(self.bundle_map()[row.id] == row.bundle);
            }
            match self.analyze_bundle(row.id) {
                Ok(a) => {
                    let ghost prev = list@;
                    list.push(a);
                    proof {
                        assert forall|j: int| 0 <= j < k + 1 implies #[trigger] self.analysed(
                            list@,
                            j,
                        ) by {
                            if j < k {
                                assert(self.analysed(prev, j));
                                assert(list@[j] == prev[j]);
                            } else {
                                assert(list@[j] == a);
                            }
                        }
                    }
                },
                Err(e) => {
                    assert(e == RepositoryError::BundleMissing(self.bundle_rows()[k as int].bundle));
                    assert(self.bundle_map().dom().contains(row.id));
                    return Err(e);
                },
            }
            k += 1;
        }
        proof {
            assert forall|id: u32| #[trigger] self.bundle_map().dom().contains(id) implies self.infos().dom().contains(
                self.bundle_map()[id],
            ) by {
                let c = choose|c: int| 0 <= c < rows@.len() && (#[trigger] rows@[c]).id == id;
                assert(self.analysed(list@, c));
            }
        }
        Ok(list)
    }
}

} // verus!
