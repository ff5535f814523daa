use crate::bundle::{
    chunk_bytes, chunk_in_range, copy_chunks, extract_chunk, BundleInfo, BundleMeta, ChunkEntry,
    StoredBundle,
};
use crate::bundle_map::BundleId;
use crate::codec::{decode_blob, unsealed, Compressor};
use crate::crypto::KeyStore;
use crate::error::RepositoryError;
use crate::hash::{blake2_hash, HashMethod};
use vstd::prelude::*;

verus! {

/// Whether two content-ids are the same.
pub fn same_id(a: &BundleId, b: &BundleId) -> (r: bool)
    ensures
        r == (*a == *b),
{
    a.hash.high == b.hash.high && a.hash.low == b.hash.low
}

/// Whether no content-id occurs twice among `metas`.
pub open spec fn metas_unique(metas: Seq<BundleMeta>) -> bool {
    forall|j: int, k: int|
        0 <= j < k < metas.len() ==> (#[trigger] metas[j]).info.id != (#[trigger] metas[k]).info.id
}

/// Whether no content-id occurs twice among `bundles`.
pub open spec fn bundles_unique(bundles: Seq<StoredBundle>) -> bool {
    forall|j: int, k: int|
        0 <= j < k < bundles.len() ==> (#[trigger] bundles[j]).info.id != (
        #[trigger] bundles[k]).info.id
}

/// Whether `metas` holds a bundle with content-id `id`.
pub open spec fn metas_list(metas: Seq<BundleMeta>, id: BundleId) -> bool {
    exists|k: int| 0 <= k < metas.len() && (#[trigger] metas[k]).info.id == id
}

/// Whether `bundles` holds a bundle with content-id `id`.
pub open spec fn bundles_list(bundles: Seq<StoredBundle>, id: BundleId) -> bool {
    exists|k: int| 0 <= k < bundles.len() && (#[trigger] bundles[k]).info.id == id
}

/// Whether a cache and a remote listing can be opened: every header agrees with its chunk
/// list and blob, and neither names a bundle twice.
pub open spec fn listing_valid(cache: Seq<BundleMeta>, remote: Seq<StoredBundle>) -> bool {
    &&& forall|k: int| 0 <= k < cache.len() ==> (#[trigger] cache[k]).wf()
    &&& forall|k: int| 0 <= k < remote.len() ==> (#[trigger] remote[k]).wf()
    &&& metas_unique(cache)
    &&& bundles_unique(remote)
}

/// Whether `info` is the header of one of `metas`.
pub open spec fn header_in_metas(metas: Seq<BundleMeta>, info: BundleInfo) -> bool {
    exists|k: int| 0 <= k < metas.len() && (#[trigger] metas[k]).info == info
}

/// Whether `info` is the header of one of `bundles`.
pub open spec fn header_in_bundles(bundles: Seq<StoredBundle>, info: BundleInfo) -> bool {
    exists|k: int| 0 <= k < bundles.len() && (#[trigger] bundles[k]).info == info
}

/// Whether `info` is one of `infos`.
pub open spec fn header_listed(infos: Seq<BundleInfo>, info: BundleInfo) -> bool {
    exists|k: int| 0 <= k < infos.len() && #[trigger] infos[k] == info
}

fn find_meta(metas: &Vec<BundleMeta>, upto: usize, id: &BundleId) -> (r: Option<usize>)
    requires
        upto <= metas@.len(),
    ensures
        match r {
            Some(k) => k < upto && metas@[k as int].info.id == *id,
            None => forall|k: int| 0 <= k < upto ==> (#[trigger] metas@[k]).info.id != *id,
        },
{
    let mut k: usize = 0;
    while k < upto
        invariant
            k <= upto <= metas@.len(),
            forall|j: int| 0 <= j < k ==> (#[trigger] metas@[j]).info.id != *id,
        decreases upto - k,
    {
        if same_id(&metas[k].info.id, id) {
            return Some(k);
        }
        k += 1;
    }
    None
}

fn find_bundle(bundles: &Vec<StoredBundle>, upto: usize, id: &BundleId) -> (r: Option<usize>)
    requires
        upto <= bundles@.len(),
    ensures
        match r {
            Some(k) => k < upto && bundles@[k as int].info.id == *id,
            None => forall|k: int| 0 <= k < upto ==> (#[trigger] bundles@[k]).info.id != *id,
        },
{
    let mut k: usize = 0;
    while k < upto
        invariant
            k <= upto <= bundles@.len(),
            forall|j: int| 0 <= j < k ==> (#[trigger] bundles@[j]).info.id != *id,
        decreases upto - k,
    {
        if same_id(&bundles[k].info.id, id) {
            return Some(k);
        }
        k += 1;
    }
    None
}

/// Whether every header agrees with its chunk list and no bundle is named twice.
pub fn metas_valid(metas: &Vec<BundleMeta>) -> (r: bool)
    ensures
        r == ((forall|k: int| 0 <= k < metas@.len() ==> (#[trigger] metas@[k]).wf())
            && metas_unique(metas@)),
{
    let n = metas.len();
    let mut k: usize = 0;
    while k < n
        invariant
            n == metas@.len(),
            k <= n,
            forall|j: int| 0 <= j < k ==> (#[trigger] metas@[j]).wf(),
            forall|i: int, j: int|
                0 <= i < j < k ==> (#[trigger] metas@[i]).info.id != (#[trigger] metas@[j]).info.id,
        decreases n - k,
    {
        if !metas[k].check() {
            return false;
        }
        if find_meta(metas, k, &metas[k].info.id).is_some() {
            return false;
        }
        k += 1;
    }
    true
}

/// Whether every header agrees with its chunk list and blob and no bundle is named twice.
pub fn bundles_valid(bundles: &Vec<StoredBundle>) -> (r: bool)
    ensures
        r == ((forall|k: int| 0 <= k < bundles@.len() ==> (#[trigger] bundles@[k]).wf())
            && bundles_unique(bundles@)),
{
    let n = bundles.len();
    let mut k: usize = 0;
    while k < n
        invariant
            n == bundles@.len(),
            k <= n,
            forall|j: int| 0 <= j < k ==> (#[trigger] bundles@[j]).wf(),
            forall|i: int, j: int|
                0 <= i < j < k ==> (#[trigger] bundles@[i]).info.id != (
                #[trigger] bundles@[j]).info.id,
        decreases n - k,
    {
        if !bundles[k].check() {
            return false;
        }
        if find_bundle(bundles, k, &bundles[k].info.id).is_some() {
            return false;
        }
        k += 1;
    }
    true
}

/// The headers of the cached bundles that the remote no longer holds.
fn gone_bundles(cache: &Vec<BundleMeta>, remote: &Vec<StoredBundle>) -> (gone: Vec<BundleInfo>)
    ensures
        forall|k: int|
            0 <= k < gone@.len() ==> header_in_metas(cache@, #[trigger] gone@[k]) && !bundles_list(
                remote@,
                gone@[k].id,
            ),
        forall|j: int|
            0 <= j < cache@.len() && !bundles_list(remote@, (#[trigger] cache@[j]).info.id)
                ==> header_listed(gone@, cache@[j].info),
{
    let n = cache.len();
    let mut gone: Vec<BundleInfo> = Vec::new();
    let mut k: usize = 0;
    while k < n
        invariant
            n == cache@.len(),
            k <= n,
            forall|i: int|
                0 <= i < gone@.len() ==> header_in_metas(cache@, #[trigger] gone@[i])
                    && !bundles_list(remote@, gone@[i].id),
            forall|i: int|
                0 <= i < k && !bundles_list(remote@, (#[trigger] cache@[i]).info.id)
                    ==> header_listed(gone@, cache@[i].info),
        decreases n - k,
    {
        if find_bundle(remote, remote.len(), &cache[k].info.id).is_none() {
            let ghost prev = gone@;
            gone.push(cache[k].info);
            proof {
                assert(cache@[k as int].info == gone@[prev.len() as int]);
                assert forall|i: int|
                    0 <= i < k + 1 && !bundles_list(
                        remote@,
                        (#[trigger] cache@[i]).info.id,
                    ) implies header_listed(gone@, cache@[i].info) by {
                    if i < k {
                        let w = choose|w: int|
                            0 <= w < prev.len() && #[trigger] prev[w] == cache@[i].info;
                        assert(gone@[w] == cache@[i].info);
                    } else {
                        assert(gone@[prev.len() as int] == cache@[i].info);
                    }
                }
            }
        }
        k += 1;
    }
    gone
}

/// The number of chunks in those of the first `upto` bundles of `remote` that `cache` does
/// not know.
pub open spec fn new_load(cache: Seq<BundleMeta>, remote: Seq<StoredBundle>, upto: int) -> int
    decreases upto,
{
    if upto <= 0 {
        0
    } else {
        new_load(cache, remote, upto - 1) + (if metas_list(cache, remote[upto - 1].info.id) {
            0int
        } else {
            remote[upto - 1].info.chunk_count as int
        })
    }
}

/// The number of chunks that the first `upto` of `headers` count.
pub open spec fn headers_load(headers: Seq<BundleInfo>, upto: int) -> int
    decreases upto,
{
    if upto <= 0 {
        0
    } else {
        headers_load(headers, upto - 1) + headers[upto - 1].chunk_count
    }
}

/// The count over a prefix does not depend on what follows it, and more headers count no
/// fewer chunks.
pub proof fn lemma_headers_load(a: Seq<BundleInfo>, b: Seq<BundleInfo>, upto: int, more: int)
    requires
        0 <= upto <= more,
        upto <= a.len(),
        upto <= b.len(),
        forall|i: int| 0 <= i < upto ==> a[i] == b[i],
    ensures
        headers_load(a, upto) == headers_load(b, upto),
        0 <= headers_load(a, upto) <= headers_load(a, more),
    decreases more,
{
    if upto > 0 {
        lemma_headers_load(a, b, upto - 1, upto - 1);
    }
    if upto < more {
        lemma_headers_load(a, a, upto, more - 1);
    }
}

/// Appends to the cached bundles the header and chunk list of every remote bundle that the
/// cache does not know, and lists the headers of those.
fn adopt_new(cache: Vec<BundleMeta>, remote: &Vec<StoredBundle>) -> (r: (
    Vec<BundleMeta>,
    Vec<BundleInfo>,
))
    requires
        listing_valid(cache@, remote@),
    ensures
        ({
            let (local, new) = r;
            &&& local@.len() == cache@.len() + new@.len()
            &&& local@.subrange(0, cache@.len() as int) == cache@
            &&& forall|i: int| 0 <= i < local@.len() ==> (#[trigger] local@[i]).wf()
            &&& metas_unique(local@)
            &&& forall|i: int|
                0 <= i < new@.len() ==> header_in_bundles(remote@, #[trigger] new@[i])
                    && !metas_list(cache@, new@[i].id) && local@[cache@.len() + i].info == new@[i]
            &&& forall|l: int|
                0 <= l < remote@.len() && !metas_list(cache@, (#[trigger] remote@[l]).info.id)
                    ==> header_listed(new@, remote@[l].info) && metas_hold(local@, remote@[l])
            &&& new@.len() <= remote@.len()
            &&& headers_load(new@, new@.len() as int) == new_load(
                cache@,
                remote@,
                remote@.len() as int,
            )
        }),
{
    let n = cache.len();
    let m = remote.len();
    let mut local = cache;
    let mut new: Vec<BundleInfo> = Vec::new();
    let ghost mut src: Seq<int> = Seq::empty();
    let mut j: usize = 0;
    while j < m
        invariant
            m == remote@.len(),
            j <= m,
            n == cache@.len(),
            local@.len() == n + new@.len(),
            src.len() == new@.len(),
            new@.len() <= j,
            headers_load(new@, new@.len() as int) == new_load(cache@, remote@, j as int),
            local@.subrange(0, n as int) == cache@,
            listing_valid(cache@, remote@),
            forall|i: int| 0 <= i < local@.len() ==> (#[trigger] local@[i]).wf(),
            forall|i: int|
                0 <= i < src.len() ==> {
                    let l = #[trigger] src[i];
                    &&& 0 <= l < j
                    &&& remote@[l].info == new@[i]
                    &&& local@[n + i].info == new@[i]
                    &&& local@[n + i].chunks@ == remote@[l].chunks@
                    &&& !metas_list(cache@, new@[i].id)
                },
            forall|a: int, b: int| 0 <= a < b < src.len() ==> #[trigger] src[a] < #[trigger] src[b],
            forall|l: int|
                0 <= l < j && !metas_list(cache@, (#[trigger] remote@[l]).info.id)
                    ==> src.contains(l),
        decreases m - j,
    {
        let id = remote[j].info.id;
        if find_meta(&local, n, &id).is_none() {
            let ghost prev_src = src;
            proof {
                assert forall|i: int| 0 <= i < n implies (#[trigger] cache@[i]).info.id != id by {
                    assert(local@.subrange(0, n as int)[i] == local@[i]);
                }
            }
            let ghost prev_local = local@;
            let ghost prev_new = new@;
            local.push(remote[j].meta());
            new.push(remote[j].info);
            proof {
                assert(!metas_list(cache@, id));
                lemma_headers_load(new@, prev_new, prev_new.len() as int, prev_new.len() as int);
                src = src.push(j as int);
                assert(local@.subrange(0, n as int) =~= prev_local.subrange(0, n as int));
                assert forall|l: int|
                    0 <= l < j + 1 && !metas_list(
                        cache@,
                        (#[trigger] remote@[l]).info.id,
                    ) implies src.contains(l) by {
                    if l < j {
                        let w = choose|w: int| 0 <= w < prev_src.len() && prev_src[w] == l;
                        assert(src[w] == l);
                    } else {
                        assert(src[prev_src.len() as int] == l);
                    }
                }
            }
        } else {
            proof {
                let w = choose|w: int| 0 <= w < n && local@[w].info.id == id;
                assert(local@.subrange(0, n as int)[w] == local@[w]);
                assert(cache@[w].info.id == id);
                assert(metas_list(cache@, id));
            }
        }
        j += 1;
    }
    proof {
        assert forall|a: int, b: int| 0 <= a < b < local@.len() implies (#[trigger] local@[a]).info.id
            != (#[trigger] local@[b]).info.id by {
            if b < n {
                assert(local@.subrange(0, n as int)[a] == local@[a]);
                assert(local@.subrange(0, n as int)[b] == local@[b]);
            } else if a < n {
                assert(local@.subrange(0, n as int)[a] == local@[a]);
                let l = src[b - n];
                assert(cache@[a].info.id != new@[b - n].id);
            } else {
                let la = src[a - n];
                let lb = src[b - n];
                assert(remote@[la].info.id != remote@[lb].info.id);
            }
        }
        assert forall|i: int| 0 <= i < new@.len() implies header_in_bundles(
            remote@,
            #[trigger] new@[i],
        ) && !metas_list(cache@, new@[i].id) && local@[n + i].info == new@[i] by {
            let l = src[i];
            assert(remote@[l].info == new@[i]);
        }
        assert forall|l: int|
            0 <= l < remote@.len() && !metas_list(
                cache@,
                (#[trigger] remote@[l]).info.id,
            ) implies header_listed(new@, remote@[l].info) && metas_hold(local@, remote@[l]) by {
            let i = choose|i: int| 0 <= i < src.len() && src[i] == l;
            assert(new@[i] == remote@[l].info);
            assert(local@[n + i].info == remote@[l].info);
        }
    }
    (local, new)
}

/// Whether `metas` holds the header and chunk list of `bundle`.
pub open spec fn metas_hold(metas: Seq<BundleMeta>, bundle: StoredBundle) -> bool {
    exists|k: int|
        0 <= k < metas.len() && (#[trigger] metas[k]).info == bundle.info && metas[k].chunks@
            == bundle.chunks@
}

/// Cuts chunk `idx` out of decoded bundle bytes and holds it against the chunk list: the
/// chunk has to lie within the bytes and to have the fingerprint the list records for it.
pub fn verified_chunk(
    raw: &Vec<u8>,
    chunks: &Vec<ChunkEntry>,
    idx: usize,
    method: HashMethod,
) -> (r: Option<Vec<u8>>)
    ensures
        r matches Some(data) ==> {
            &&& chunk_in_range(raw@, chunks@, idx as int)
            &&& data@ == chunk_bytes(raw@, chunks@, idx as int)
            &&& data@.len() == chunks@[idx as int].len
            &&& method.hashes_to(data@, chunks@[idx as int].hash)
        },
        method is Blake2 ==> (r is Some <==> chunk_in_range(raw@, chunks@, idx as int)
            && blake2_hash(chunk_bytes(raw@, chunks@, idx as int)) == chunks@[idx as int].hash),
        !chunk_in_range(raw@, chunks@, idx as int) ==> r is None,
{
    match extract_chunk(raw, chunks, idx) {
        None => None,
        Some(data) => {
            let h = method.hash(data.as_slice());
            let want = chunks[idx].hash;
            if h.high == want.high && h.low == want.low {
                Some(data)
            } else {
                None
            }
        },
    }
}

/// What decoding the blob of bundle `id` gives. Without a known header or without a blob
/// on the remote: `BundleMissing`. Else the blob is unsealed, which fails as `unsealed`
/// says; what comes out is decompressed, which can fail with `Compress`. Where the bundle
/// names no compression the outcome is that of unsealing.
pub open spec fn decoded(
    infos: Map<BundleId, BundleInfo>,
    lists: Map<BundleId, Seq<ChunkEntry>>,
    blobs: Map<BundleId, Seq<u8>>,
    keys: Map<Seq<u8>, crate::crypto::SecretKey>,
    id: BundleId,
    r: Result<Vec<u8>, RepositoryError>,
) -> bool {
    if !lists.dom().contains(id) || !blobs.dom().contains(id) {
        r == Err::<Vec<u8>, RepositoryError>(RepositoryError::BundleMissing(id))
    } else {
        match unsealed(keys, blobs[id], infos[id].encryption) {
            Err(e) => r == Err::<Vec<u8>, RepositoryError>(e),
            Ok(raw) => {
                &&& r matches Err(e) ==> e == RepositoryError::Compress
                &&& infos[id].compression is None ==> r is Ok && r->Ok_0@ == raw
            },
        }
    }
}

/// What cutting chunk `idx` of bundle `id` out of the decoded bytes `raw` gives. Without a
/// known chunk list: `BundleMissing`. With a place beyond the chunk list: `IndexCorrupt`.
/// Else the chunk has to lie within the bytes and to have the fingerprint that the chunk
/// list records, or the outcome is `BundleFormat`.
pub open spec fn chunk_cut(
    infos: Map<BundleId, BundleInfo>,
    lists: Map<BundleId, Seq<ChunkEntry>>,
    raw: Seq<u8>,
    id: BundleId,
    idx: int,
    r: Result<Vec<u8>, RepositoryError>,
) -> bool {
    if !lists.dom().contains(id) {
        r == Err::<Vec<u8>, RepositoryError>(RepositoryError::BundleMissing(id))
    } else if idx >= lists[id].len() {
        r == Err::<Vec<u8>, RepositoryError>(RepositoryError::IndexCorrupt)
    } else {
        let list = lists[id];
        &&& r matches Ok(data) ==> data@.len() == list[idx].len && infos[id].hash_method.hashes_to(
            data@,
            list[idx].hash,
        ) && data@ == chunk_bytes(raw, list, idx)
        &&& r matches Err(e) ==> e == RepositoryError::BundleFormat
        &&& !chunk_in_range(raw, list, idx) ==> r is Err
        &&& infos[id].hash_method is Blake2 ==> (r is Ok <==> chunk_in_range(raw, list, idx)
            && blake2_hash(chunk_bytes(raw, list, idx)) == list[idx].hash)
    }
}

/// What reading chunk `idx` of bundle `id` gives. Without a known chunk list or without a
/// blob on the remote: `BundleMissing`. With a place beyond the chunk list: `IndexCorrupt`.
/// Else the blob is unsealed, which fails as `unsealed` says; what comes out is
/// decompressed, which can fail with `Compress`; the chunk is cut out and held against the
/// chunk list, which fails with `BundleFormat`. So whatever is returned has the length and
/// the fingerprint that the chunk list records. Where the bundle names no compression the
/// outcome is that of cutting the chunk out of the unsealed blob.
pub open spec fn chunk_read(
    infos: Map<BundleId, BundleInfo>,
    lists: Map<BundleId, Seq<ChunkEntry>>,
    blobs: Map<BundleId, Seq<u8>>,
    keys: Map<Seq<u8>, crate::crypto::SecretKey>,
    id: BundleId,
    idx: int,
    r: Result<Vec<u8>, RepositoryError>,
) -> bool {
    if !lists.dom().contains(id) || !blobs.dom().contains(id) {
        r == Err::<Vec<u8>, RepositoryError>(RepositoryError::BundleMissing(id))
    } else if idx >= lists[id].len() {
        r == Err::<Vec<u8>, RepositoryError>(RepositoryError::IndexCorrupt)
    } else {
        let info = infos[id];
        let list = lists[id];
        &&& r matches Ok(data) ==> data@.len() == list[idx].len && info.hash_method.hashes_to(
            data@,
            list[idx].hash,
        )
        &&& match unsealed(keys, blobs[id], info.encryption) {
            Err(e) => r == Err::<Vec<u8>, RepositoryError>(e),
            Ok(raw) => {
                &&& r matches Err(e) ==> e == RepositoryError::Compress || e
                    == RepositoryError::BundleFormat
                &&& info.compression is None ==> {
                    &&& r matches Ok(data) ==> data@ == chunk_bytes(raw, list, idx)
                    &&& r matches Err(e) ==> e == RepositoryError::BundleFormat
                    &&& !chunk_in_range(raw, list, idx) ==> r is Err
                    &&& info.hash_method is Blake2 ==> (r is Ok <==> chunk_in_range(raw, list, idx)
                        && blake2_hash(chunk_bytes(raw, list, idx)) == list[idx].hash)
                }
            },
        }
    }
}

/// The bundle store: the headers and chunk lists that the local cache knows, and the
/// bundles that lie on the remote.
pub struct BundleDb {
    local: Vec<BundleMeta>,
    remote: Vec<StoredBundle>,
    local_row: Ghost<Map<BundleId, int>>,
    remote_row: Ghost<Map<BundleId, int>>,
}

impl BundleDb {
    /// The headers of the bundles that the store knows, by content-id.
    pub closed spec fn infos(&self) -> Map<BundleId, BundleInfo> {
        Map::new(
            |id: BundleId| self.local_row@.dom().contains(id),
            |id: BundleId| self.local@[self.local_row@[id]].info,
        )
    }

    /// The chunk lists of the bundles that the store knows, by content-id.
    pub closed spec fn lists(&self) -> Map<BundleId, Seq<ChunkEntry>> {
        Map::new(
            |id: BundleId| self.local_row@.dom().contains(id),
            |id: BundleId| self.local@[self.local_row@[id]].chunks@,
        )
    }

    /// The data blobs that lie on the remote, by content-id.
    pub closed spec fn blobs(&self) -> Map<BundleId, Seq<u8>> {
        Map::new(
            |id: BundleId| self.remote_row@.dom().contains(id),
            |id: BundleId| self.remote@[self.remote_row@[id]].data@,
        )
    }

    /// The known bundles in the order in which they are kept.
    pub closed spec fn local_metas(&self) -> Seq<BundleMeta> {
        self.local@
    }

    /// The remote bundles in the order in which they are kept.
    pub closed spec fn remote_bundles(&self) -> Seq<StoredBundle> {
        self.remote@
    }

    /// The store invariant: no bundle is listed twice, and every header agrees with its
    /// chunk list and blob.
    pub closed spec fn wf(&self) -> bool {
        &&& forall|k: int|
            0 <= k < self.local@.len() ==> {
                let m = #[trigger] self.local@[k];
                m.wf() && self.local_row@.dom().contains(m.info.id) && self.local_row@[m.info.id]
                    == k
            }
        &&& forall|id: BundleId| #[trigger]
            self.local_row@.dom().contains(id) ==> {
                let k = self.local_row@[id];
                0 <= k < self.local@.len() && self.local@[k].info.id == id
            }
        &&& forall|k: int|
            0 <= k < self.remote@.len() ==> {
                let b = #[trigger] self.remote@[k];
                b.wf() && self.remote_row@.dom().contains(b.info.id) && self.remote_row@[b.info.id]
                    == k
            }
        &&& forall|id: BundleId| #[trigger]
            self.remote_row@.dom().contains(id) ==> {
                let k = self.remote_row@[id];
                0 <= k < self.remote@.len() && self.remote@[k].info.id == id
            }
    }

    /// What the invariant says of the views.
    pub proof fn lemma_views(&self)
        requires
            self.wf(),
        ensures
            self.infos().dom() == self.lists().dom(),
            forall|id: BundleId| #[trigger]
                self.infos().dom().contains(id) ==> self.infos()[id].id == id
                    && crate::bundle::meta_wf(self.infos()[id], self.lists()[id]),
            metas_unique(self.local_metas()),
            bundles_unique(self.remote_bundles()),
            forall|k: int|
                0 <= k < self.local_metas().len() ==> {
                    let m = #[trigger] self.local_metas()[k];
                    m.wf() && self.infos().contains_pair(m.info.id, m.info)
                        && self.lists().contains_pair(m.info.id, m.chunks@)
                },
            forall|id: BundleId|
                self.infos().dom().contains(id) ==> metas_list(self.local_metas(), id),
            forall|k: int|
                0 <= k < self.remote_bundles().len() ==> {
                    let b = #[trigger] self.remote_bundles()[k];
                    b.wf() && self.blobs().contains_pair(b.info.id, b.data@)
                },
            forall|id: BundleId|
                self.blobs().dom().contains(id) ==> bundles_list(self.remote_bundles(), id),
    {
        assert(self.infos().dom() =~= self.lists().dom());
        assert forall|id: BundleId| self.infos().dom().contains(id) implies metas_list(
            self.local_metas(),
            id,
        ) by {
            assert(self.local@[self.local_row@[id]].info.id == id);
        }
        assert forall|id: BundleId| self.blobs().dom().contains(id) implies bundles_list(
            self.remote_bundles(),
            id,
        ) by {
            assert(self.remote@[self.remote_row@[id]].info.id == id);
        }
    }

    /// An empty store.
    pub fn create() -> (db: BundleDb)
        ensures
            db.wf(),
            db.infos() == Map::<BundleId, BundleInfo>::empty(),
            db.lists() == Map::<BundleId, Seq<ChunkEntry>>::empty(),
            db.blobs() == Map::<BundleId, Seq<u8>>::empty(),
            db.local_metas() == Seq::<BundleMeta>::empty(),
            db.remote_bundles() == Seq::<StoredBundle>::empty(),
    {
        let db = BundleDb {
            local: Vec::new(),
            remote: Vec::new(),
            local_row: Ghost(Map::empty()),
            remote_row: Ghost(Map::empty()),
        };
        assert(db.infos() =~= Map::<BundleId, BundleInfo>::empty());
        assert(db.lists() =~= Map::<BundleId, Seq<ChunkEntry>>::empty());
        assert(db.blobs() =~= Map::<BundleId, Seq<u8>>::empty());
        db
    }

    /// Opens the store over what the local cache holds and what lies on the remote. The
    /// remote bundles that the cache did not know are made known and reported as new; the
    /// cached bundles that the remote no longer holds are reported as gone and stay known
    /// until they are deleted locally. A listing that is not valid is refused.
    pub fn open(cache: Vec<BundleMeta>, remote: Vec<StoredBundle>) -> (r: Result<
        (BundleDb, Vec<BundleInfo>, Vec<BundleInfo>),
        RepositoryError,
    >)
        ensures
            r is Ok <==> listing_valid(cache@, remote@),
            r matches Err(e) ==> e == RepositoryError::BundleFormat,
            r matches Ok((db, new, gone)) ==> {
                &&& db.wf()
                &&& db.remote_bundles() == remote@
                &&& db.local_metas().len() == cache@.len() + new@.len()
                &&& db.local_metas().subrange(0, cache@.len() as int) == cache@
                &&& forall|k: int|
                    0 <= k < cache@.len() ==> db.infos().contains_pair(
                        (#[trigger] cache@[k]).info.id,
                        cache@[k].info,
                    ) && db.lists().contains_pair(cache@[k].info.id, cache@[k].chunks@)
                &&& forall|j: int|
                    0 <= j < remote@.len() && !metas_list(cache@, (#[trigger] remote@[j]).info.id)
                        ==> db.infos().contains_pair(remote@[j].info.id, remote@[j].info)
                        && db.lists().contains_pair(remote@[j].info.id, remote@[j].chunks@)
                &&& forall|id: BundleId|
                    db.infos().dom().contains(id) ==> metas_list(cache@, id) || bundles_list(
                        remote@,
                        id,
                    )
                &&& forall|j: int|
                    0 <= j < remote@.len() ==> db.blobs().contains_pair(
                        (#[trigger] remote@[j]).info.id,
                        remote@[j].data@,
                    )
                &&& forall|id: BundleId|
                    db.blobs().dom().contains(id) ==> bundles_list(remote@, id)
                &&& forall|k: int|
                    0 <= k < new@.len() ==> header_in_bundles(remote@, #[trigger] new@[k])
                        && !metas_list(cache@, new@[k].id)
                &&& forall|j: int|
                    0 <= j < remote@.len() && !metas_list(cache@, (#[trigger] remote@[j]).info.id)
                        ==> header_listed(new@, remote@[j].info)
                &&& forall|k: int|
                    0 <= k < gone@.len() ==> header_in_metas(cache@, #[trigger] gone@[k])
                        && !bundles_list(remote@, gone@[k].id)
                &&& forall|j: int|
                    0 <= j < cache@.len() && !bundles_list(remote@, (#[trigger] cache@[j]).info.id)
                        ==> header_listed(gone@, cache@[j].info)
                &&& new@.len() <= remote@.len()
                &&& headers_load(new@, new@.len() as int) == new_load(
                    cache@,
                    remote@,
                    remote@.len() as int,
                )
            },
    {
        if !metas_valid(&cache) || !bundles_valid(&remote) {
            return Err(RepositoryError::BundleFormat);
        }
        let gone = gone_bundles(&cache, &remote);
        let ghost old_cache = cache@;
        let (local, new) = adopt_new(cache, &remote);
        let db = BundleDb::from_parts(local, remote);
        proof {
            db.lemma_views();
            let n = old_cache.len() as int;
            assert forall|k: int| 0 <= k < old_cache.len() implies db.infos().contains_pair(
                (#[trigger] old_cache[k]).info.id,
                old_cache[k].info,
            ) && db.lists().contains_pair(old_cache[k].info.id, old_cache[k].chunks@) by {
                assert(db.local_metas().subrange(0, n)[k] == db.local_metas()[k]);
            }
            assert forall|id: BundleId| db.infos().dom().contains(id) implies metas_list(
                old_cache,
                id,
            ) || bundles_list(db.remote_bundles(), id) by {
                let k = choose|k: int|
                    0 <= k < db.local_metas().len() && (#[trigger] db.local_metas()[k]).info.id
                        == id;
                if k < n {
                    assert(db.local_metas().subrange(0, n)[k] == db.local_metas()[k]);
                    assert(old_cache[k].info.id == id);
                } else {
                    assert(header_in_bundles(db.remote_bundles(), new@[k - n]));
                }
            }
        }
        Ok((db, new, gone))
    }

    /// The store over the given lists.
    fn from_parts(local: Vec<BundleMeta>, remote: Vec<StoredBundle>) -> (db: BundleDb)
        requires
            forall|k: int| 0 <= k < local@.len() ==> (#[trigger] local@[k]).wf(),
            listing_valid(local@, remote@),
        ensures
            db.wf(),
            db.local_metas() == local@,
            db.remote_bundles() == remote@,
    {
        let ghost lrow = Map::<BundleId, int>::new(
            |id: BundleId| metas_list(local@, id),
            |id: BundleId|
                choose|k: int| 0 <= k < local@.len() && (#[trigger] local@[k]).info.id == id,
        );
        let ghost rrow = Map::<BundleId, int>::new(
            |id: BundleId| bundles_list(remote@, id),
            |id: BundleId|
                choose|k: int| 0 <= k < remote@.len() && (#[trigger] remote@[k]).info.id == id,
        );
        let db = BundleDb { local, remote, local_row: Ghost(lrow), remote_row: Ghost(rrow) };
        proof {
            assert forall|k: int| 0 <= k < db.local@.len() implies {
                let x = #[trigger] db.local@[k];
                x.wf() && db.local_row@.dom().contains(x.info.id) && db.local_row@[x.info.id] == k
            } by {
                let x = db.local@[k];
                assert(metas_list(db.local@, x.info.id));
                let c = lrow[x.info.id];
                if c < k {
                    assert(db.local@[c].info.id != db.local@[k].info.id);
                }
                if k < c {
                    assert(db.local@[k].info.id != db.local@[c].info.id);
                }
            }
            assert forall|k: int| 0 <= k < db.remote@.len() implies {
                let x = #[trigger] db.remote@[k];
                x.wf() && db.remote_row@.dom().contains(x.info.id) && db.remote_row@[x.info.id]
                    == k
            } by {
                let x = db.remote@[k];
                assert(bundles_list(db.remote@, x.info.id));
                let c = rrow[x.info.id];
                if c < k {
                    assert(db.remote@[c].info.id != db.remote@[k].info.id);
                }
                if k < c {
                    assert(db.remote@[k].info.id != db.remote@[c].info.id);
                }
            }
        }
        db
    }

    fn local_position(&self, id: &BundleId) -> (r: Option<usize>)
        requires
            self.wf(),
        ensures
            match r {
                Some(k) => self.infos().dom().contains(*id) && k == self.local_row@[*id] && k
                    < self.local@.len(),
                None => !self.infos().dom().contains(*id),
            },
    {
        find_meta(&self.local, self.local.len(), id)
    }

    fn remote_position(&self, id: &BundleId) -> (r: Option<usize>)
        requires
            self.wf(),
        ensures
            match r {
                Some(k) => self.blobs().dom().contains(*id) && k == self.remote_row@[*id] && k
                    < self.remote@.len(),
                None => !self.blobs().dom().contains(*id),
            },
    {
        find_bundle(&self.remote, self.remote.len(), id)
    }

    /// Whether the store knows a bundle with content-id `id`.
    pub fn knows(&self, id: &BundleId) -> (r: bool)
        requires
            self.wf(),
        ensures
            r == self.infos().dom().contains(*id),
    {
        self.local_position(id).is_some()
    }

    /// Whether the remote holds a bundle with content-id `id`.
    pub fn stores(&self, id: &BundleId) -> (r: bool)
        requires
            self.wf(),
        ensures
            r == self.blobs().dom().contains(*id),
    {
        self.remote_position(id).is_some()
    }

    /// The header of bundle `id`.
    pub fn get_bundle_info(&self, id: &BundleId) -> (r: Option<BundleInfo>)
        requires
            self.wf(),
        ensures
            r == (if self.infos().dom().contains(*id) {
                Some(self.infos()[*id])
            } else {
                None
            }),
    {
        match self.local_position(id) {
            Some(k) => Some(self.local[k].info),
            None => None,
        }
    }

    /// The chunk list of bundle `id`.
    pub fn get_chunk_list(&self, id: &BundleId) -> (r: Option<Vec<ChunkEntry>>)
        requires
            self.wf(),
        ensures
            r is Some <==> self.lists().dom().contains(*id),
            r matches Some(list) ==> list@ == self.lists()[*id],
    {
        match self.local_position(id) {
            Some(k) => Some(copy_chunks(&self.local[k].chunks)),
            None => None,
        }
    }

    /// Row `idx` of the chunk list of bundle `id`.
    pub fn chunk_entry(&self, id: &BundleId, idx: usize) -> (r: Option<ChunkEntry>)
        requires
            self.wf(),
        ensures
            r == (if self.lists().dom().contains(*id) && idx < self.lists()[*id].len() {
                Some(self.lists()[*id][idx as int])
            } else {
                None
            }),
    {
        match self.local_position(id) {
            Some(k) => {
                if idx < self.local[k].chunks.len() {
                    Some(self.local[k].chunks[idx])
                } else {
                    None
                }
            },
            None => None,
        }
    }

    /// Holds the name of bundle `id` against its content: the fingerprint of the canonical
    /// bytes, made of the cached header and chunk list and the blob on the remote, has to
    /// be the content-id. Under BLAKE2b the check passes for the right name alone.
    pub fn check_content_id(&self, id: &BundleId) -> (r: Result<(), RepositoryError>)
        requires
            self.wf(),
        ensures
            !self.infos().dom().contains(*id) || !self.blobs().dom().contains(*id) ==> r == Err::<
                (),
                RepositoryError,
            >(RepositoryError::BundleMissing(*id)),
            self.infos().dom().contains(*id) && self.blobs().dom().contains(*id) ==> {
                &&& r matches Err(e) ==> e == RepositoryError::BundleFormat
                &&& r is Ok ==> crate::bundle::is_content_id(
                    *id,
                    self.infos()[*id],
                    self.lists()[*id],
                    self.blobs()[*id],
                )
                &&& self.infos()[*id].hash_method is Blake2 ==> (r is Ok <==> id.hash
                    == blake2_hash(
                    crate::bundle::file_bytes(self.infos()[*id], self.lists()[*id], self.blobs()[*id]),
                ))
            },
    {
        proof {
            self.lemma_views();
        }
        let k = match self.local_position(id) {
            Some(k) => k,
            None => {
                return Err(RepositoryError::BundleMissing(*id));
            },
        };
        let j = match self.remote_position(id) {
            Some(j) => j,
            None => {
                return Err(RepositoryError::BundleMissing(*id));
            },
        };
        let meta = &self.local[k];
        assert(meta.wf());
        let found = crate::bundle::content_id(&meta.info, &meta.chunks, &self.remote[j].data);
        if same_id(&found, id) {
            Ok(())
        } else {
            Err(RepositoryError::BundleFormat)
        }
    }

    /// The headers of all known bundles.
    pub fn list_bundles(&self) -> (out: Vec<BundleInfo>)
        requires
            self.wf(),
        ensures
            out@.len() == self.local_metas().len(),
            forall|k: int|
                0 <= k < out@.len() ==> #[trigger] out@[k] == self.local_metas()[k].info,
    {
        let mut out: Vec<BundleInfo> = Vec::new();
        let mut k: usize = 0;
        while k < self.local.len()
            invariant
                k <= self.local@.len(),
                out@.len() == k,
                forall|j: int| 0 <= j < k ==> #[trigger] out@[j] == self.local@[j].info,
            decreases self.local@.len() - k,
        {
            out.push(self.local[k].info);
            k += 1;
        }
        out
    }

    /// Decodes the data blob of bundle `id`: the seal is removed, then the compression
    /// undone.
    pub fn decode_bundle<C: Compressor>(&self, codec: &C, keys: &KeyStore, id: &BundleId) -> (r:
        Result<Vec<u8>, RepositoryError>)
        requires
            self.wf(),
            keys.wf(),
        ensures
            decoded(self.infos(), self.lists(), self.blobs(), keys@, *id, r),
    {
        proof {
            self.lemma_views();
        }
        let k = match self.local_position(id) {
            Some(k) => k,
            None => {
                return Err(RepositoryError::BundleMissing(*id));
            },
        };
        let j = match self.remote_position(id) {
            Some(j) => j,
            None => {
                return Err(RepositoryError::BundleMissing(*id));
            },
        };
        let meta = &self.local[k];
        decode_blob(codec, keys, &self.remote[j].data, &meta.info.compression, &meta.info.encryption)
    }

    /// Cuts chunk `idx` of bundle `id` out of bytes that were decoded, and holds it against
    /// the fingerprint that the chunk list records for it.
    pub fn chunk_of(&self, raw: &Vec<u8>, id: &BundleId, idx: usize) -> (r: Result<
        Vec<u8>,
        RepositoryError,
    >)
        requires
            self.wf(),
        ensures
            chunk_cut(self.infos(), self.lists(), raw@, *id, idx as int, r),
    {
        proof {
            self.lemma_views();
        }
        let k = match self.local_position(id) {
            Some(k) => k,
            None => {
                return Err(RepositoryError::BundleMissing(*id));
            },
        };
        let meta = &self.local[k];
        if idx >= meta.chunks.len() {
            return Err(RepositoryError::IndexCorrupt);
        }
        match verified_chunk(raw, &meta.chunks, idx, meta.info.hash_method) {
            Some(data) => Ok(data),
            None => Err(RepositoryError::BundleFormat),
        }
    }

    /// Reads chunk `idx` of bundle `id`: the blob is fetched from the remote and decoded, the
    /// chunk cut out and held against the fingerprint that the chunk list records for it.
    pub fn get_chunk<C: Compressor>(
        &self,
        codec: &C,
        keys: &KeyStore,
        id: &BundleId,
        idx: usize,
    ) -> (r: Result<Vec<u8>, RepositoryError>)
        requires
            self.wf(),
            keys.wf(),
        ensures
            chunk_read(self.infos(), self.lists(), self.blobs(), keys@, *id, idx as int, r),
    {
        proof {
            self.lemma_views();
        }
        let k = match self.local_position(id) {
            Some(k) => k,
            None => {
                return Err(RepositoryError::BundleMissing(*id));
            },
        };
        let j = match self.remote_position(id) {
            Some(j) => j,
            None => {
                return Err(RepositoryError::BundleMissing(*id));
            },
        };
        let meta = &self.local[k];
        if idx >= meta.chunks.len() {
            return Err(RepositoryError::IndexCorrupt);
        }
        let raw = match decode_blob(
            codec,
            keys,
            &self.remote[j].data,
            &meta.info.compression,
            &meta.info.encryption,
        ) {
            Ok(raw) => raw,
            Err(e) => {
                return Err(e);
            },
        };
        match verified_chunk(&raw, &meta.chunks, idx, meta.info.hash_method) {
            Some(data) => Ok(data),
            None => Err(RepositoryError::BundleFormat),
        }
    }

    /// Publishes a closed bundle: it is put on the remote and made known to the cache.
    /// Refuses, and changes nothing, if a bundle with the same content-id is known or
    /// stored already.
    pub fn add_bundle(&mut self, bundle: StoredBundle) -> (ok: bool)
        requires
            old(self).wf(),
            bundle.wf(),
        ensures
            final(self).wf(),
            ok <==> !old(self).infos().dom().contains(bundle.info.id) && !old(self).blobs().dom().contains(bundle.info.id),
            ok ==> {
                &&& final(self).infos() == old(self).infos().insert(bundle.info.id, bundle.info)
                &&& final(self).lists() == old(self).lists().insert(bundle.info.id, bundle.chunks@)
                &&& final(self).blobs() == old(self).blobs().insert(bundle.info.id, bundle.data@)
            },
            !ok ==> {
                &&& final(self).infos() == old(self).infos()
                &&& final(self).lists() == old(self).lists()
                &&& final(self).blobs() == old(self).blobs()
            },
    {
        let id = bundle.info.id;
        if self.local_position(&id).is_some() || self.remote_position(&id).is_some() {
            return false;
        }
        let ghost before = *self;
        let meta = bundle.meta();
        self.local.push(meta);
        self.remote.push(bundle);
        proof {
            self.local_row = Ghost(before.local_row@.insert(id, before.local@.len() as int));
            self.remote_row = Ghost(before.remote_row@.insert(id, before.remote@.len() as int));
            assert forall|k: int| 0 <= k < self.local@.len() implies {
                let m = #[trigger] self.local@[k];
                m.wf() && self.local_row@.dom().contains(m.info.id) && self.local_row@[m.info.id]
                    == k
            } by {
                if k < before.local@.len() {
                    assert(self.local@[k] == before.local@[k]);
                }
            }
            assert forall|k: int| 0 <= k < self.remote@.len() implies {
                let b = #[trigger] self.remote@[k];
                b.wf() && self.remote_row@.dom().contains(b.info.id) && self.remote_row@[b.info.id]
                    == k
            } by {
                if k < before.remote@.len() {
                    assert(self.remote@[k] == before.remote@[k]);
                }
            }
            assert(self.infos() =~= before.infos().insert(id, bundle.info));
            assert(self.lists() =~= before.lists().insert(id, bundle.chunks@));
            assert(self.blobs() =~= before.blobs().insert(id, bundle.data@));
        }
        true
    }

    /// Forgets bundle `id` in the local cache and leaves the remote alone. Returns whether
    /// the bundle was known.
    pub fn delete_local_bundle(&mut self, id: &BundleId) -> (was: bool)
        requires
            old(self).wf(),
        ensures
            final(self).wf(),
            was == old(self).infos().dom().contains(*id),
            final(self).infos() == old(self).infos().remove(*id),
            final(self).lists() == old(self).lists().remove(*id),
            final(self).blobs() == old(self).blobs(),
            final(self).remote_bundles() == old(self).remote_bundles(),
    {
        match self.local_position(id) {
            None => {
                assert(self.infos().remove(*id) =~= self.infos());
                assert(self.lists().remove(*id) =~= self.lists());
                false
            },
            Some(k) => {
                let ghost before = *self;
                let ghost n = before.local@.len() as int;
                let ghost moved = before.local@[n - 1].info.id;
                self.local.swap_remove(k);
                proof {
                    let row = before.local_row@.remove(*id);
                    let rows = if k < n - 1 {
                        row.insert(moved, k as int)
                    } else {
                        row
                    };
                    self.local_row = Ghost(rows);
                    assert forall|j: int| 0 <= j < self.local@.len() implies {
                        let m = #[trigger] self.local@[j];
                        m.wf() && self.local_row@.dom().contains(m.info.id)
                            && self.local_row@[m.info.id] == j
                    } by {
                        if j == k {
                            assert(self.local@[j] == before.local@[n - 1]);
                        } else {
                            assert(self.local@[j] == before.local@[j]);
                        }
                    }
                    assert forall|g: BundleId| #[trigger]
                        self.local_row@.dom().contains(g) implies {
                        let j = self.local_row@[g];
                        0 <= j < self.local@.len() && self.local@[j].info.id == g
                    } by {
                        let j0 = before.local_row@[g];
                        assert(before.local@[j0].info.id == g);
                    }
                    assert forall|g: BundleId| self.infos().dom().contains(g) implies self.infos()[g]
                        == before.infos()[g] && self.lists()[g] == before.lists()[g] by {
                        let j0 = before.local_row@[g];
                        assert(before.local@[j0].info.id == g);
                    }
                    assert(self.infos() =~= before.infos().remove(*id));
                    assert(self.lists() =~= before.lists().remove(*id));
                    assert(self.blobs() =~= before.blobs());
                }
                true
            },
        }
    }

    fn delete_remote_bundle(&mut self, id: &BundleId) -> (was: bool)
        requires
            old(self).wf(),
        ensures
            final(self).wf(),
            was == old(self).blobs().dom().contains(*id),
            final(self).infos() == old(self).infos(),
            final(self).lists() == old(self).lists(),
            final(self).blobs() == old(self).blobs().remove(*id),
    {
        match self.remote_position(id) {
            None => {
                assert(self.blobs().remove(*id) =~= self.blobs());
                false
            },
            Some(k) => {
                let ghost before = *self;
                let ghost n = before.remote@.len() as int;
                let ghost moved = before.remote@[n - 1].info.id;
                self.remote.swap_remove(k);
                proof {
                    let row = before.remote_row@.remove(*id);
                    let rows = if k < n - 1 {
                        row.insert(moved, k as int)
                    } else {
                        row
                    };
                    self.remote_row = Ghost(rows);
                    assert forall|j: int| 0 <= j < self.remote@.len() implies {
                        let b = #[trigger] self.remote@[j];
                        b.wf() && self.remote_row@.dom().contains(b.info.id)
                            && self.remote_row@[b.info.id] == j
                    } by {
                        if j == k {
                            assert(self.remote@[j] == before.remote@[n - 1]);
                        } else {
                            assert(self.remote@[j] == before.remote@[j]);
                        }
                    }
                    assert forall|g: BundleId| #[trigger]
                        self.remote_row@.dom().contains(g) implies {
                        let j = self.remote_row@[g];
                        0 <= j < self.remote@.len() && self.remote@[j].info.id == g
                    } by {
                        let j0 = before.remote_row@[g];
                        assert(before.remote@[j0].info.id == g);
                    }
                    assert forall|g: BundleId| self.blobs().dom().contains(g) implies self.blobs()[g]
                        == before.blobs()[g] by {
                        let j0 = before.remote_row@[g];
                        assert(before.remote@[j0].info.id == g);
                    }
                    assert(self.blobs() =~= before.blobs().remove(*id));
                    assert(self.infos() =~= before.infos());
                    assert(self.lists() =~= before.lists());
                }
                true
            },
        }
    }

    /// Deletes bundle `id` from the remote and from the local cache. Returns whether the
    /// bundle was known.
    pub fn delete_bundle(&mut self, id: &BundleId) -> (was: bool)
        requires
            old(self).wf(),
        ensures
            final(self).wf(),
            was == old(self).infos().dom().contains(*id),
            final(self).infos() == old(self).infos().remove(*id),
            final(self).lists() == old(self).lists().remove(*id),
            final(self).blobs() == old(self).blobs().remove(*id),
    {
        self.delete_remote_bundle(id);
        self.delete_local_bundle(id)
    }

    /// The header-only summaries of every known bundle, as the cache is to persist them.
    pub fn save_cache(&self) -> (out: Vec<BundleMeta>)
        requires
            self.wf(),
        ensures
            out@.len() == self.local_metas().len(),
            forall|k: int|
                0 <= k < out@.len() ==> (#[trigger] out@[k]).info == self.local_metas()[k].info
                    && out@[k].chunks@ == self.local_metas()[k].chunks@,
    {
        let mut out: Vec<BundleMeta> = Vec::new();
        let mut k: usize = 0;
        while k < self.local.len()
            invariant
                k <= self.local@.len(),
                out@.len() == k,
                forall|j: int|
                    0 <= j < k ==> (#[trigger] out@[j]).info == self.local@[j].info
                        && out@[j].chunks@ == self.local@[j].chunks@,
            decreases self.local@.len() - k,
        {
            out.push(self.local[k].copy());
            k += 1;
        }
        out
    }

    /// Gives up the store and hands out the bundles on the remote.
    pub fn into_remote(self) -> (out: Vec<StoredBundle>)
        ensures
            out@ == self.remote_bundles(),
    {
        self.remote
    }
}

} // verus!
