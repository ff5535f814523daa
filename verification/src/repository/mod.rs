pub mod basic_io;
pub mod content;
pub mod ids;
pub mod info;
pub mod integrity;
pub mod vacuum;

use crate::bundle::{BundleInfo, BundleMeta, BundleMode, ChunkEntry, StoredBundle, MAX_CHUNKS};
use crate::bundle_db::{
    bundles_list, header_in_bundles, header_in_metas, headers_load, lemma_headers_load,
    listing_valid, metas_list, metas_unique, new_load, BundleDb,
};
use crate::bundle_map::{id_of, injective, rows_injective, rows_map, BundleId, BundleMap, MapEntry};
use crate::codec::Compressor;
use crate::config::{Config, Encryption, EncryptionMethod};
use crate::crypto::{pairs_map, sodium_init, KeyPair, KeyStore, PublicKey, SecretKey};
use crate::error::RepositoryError;
use crate::hash;
use crate::index::{apply_chunks, lemma_apply_chunks, Index, Location};
use crate::lock::{LockFile, LockFolder, LockHandle};
use crate::writer::BundleWriter;
use vstd::prelude::*;

verus! {

/// What the repository's own directory holds: the configuration, the key pairs, the chunk
/// index, the bundle map, the cache of bundle headers, and the dirty flag.
pub struct LocalState {
    pub config: Config,
    pub keys: Vec<KeyPair>,
    pub index: Index,
    pub bundle_map: Vec<MapEntry>,
    pub cache: Vec<BundleMeta>,
    pub dirty: bool,
}

/// What the remote holds: the bundles and the lock files.
pub struct RemoteState {
    pub bundles: Vec<StoredBundle>,
    pub locks: Vec<LockFile>,
}

/// Who opens a repository: a number for the host, the process id, and the time in seconds
/// since the epoch.
#[derive(Clone, Copy, Debug, PartialEq, Eq, Structural)]
pub struct Session {
    pub host: u64,
    pub pid: u32,
    pub now: u64,
}

/// The repository controller. It owns the chunk index, the bundle map, the bundle store, the
/// two open bundles (one per mode), the key store and the lock folder.
pub struct Repository<C: Compressor> {
    config: Config,
    index: Index,
    crypto: KeyStore,
    bundle_map: BundleMap,
    next_data_bundle: u32,
    next_meta_bundle: u32,
    bundles: BundleDb,
    data_bundle: Option<BundleWriter>,
    meta_bundle: Option<BundleWriter>,
    locks: LockFolder,
    dirty: bool,
    now: u64,
    codec: C,
    saved_config: Config,
    saved_map: Vec<MapEntry>,
    saved_cache: Vec<BundleMeta>,
}

/// Whether the index entry `h -> loc` is sound: the bundle map knows the bundle, the bundle
/// store knows its chunk list, and the list holds `h` at the entry's place.
pub open spec fn entry_ok(
    map: Map<u32, BundleId>,
    lists: Map<BundleId, Seq<ChunkEntry>>,
    h: hash::Hash,
    loc: Location,
) -> bool {
    &&& map.dom().contains(loc.bundle)
    &&& lists.dom().contains(map[loc.bundle])
    &&& loc.chunk < lists[map[loc.bundle]].len()
    &&& lists[map[loc.bundle]][loc.chunk as int].hash == h
}

/// The index invariant: every entry is sound.
pub open spec fn index_sound(
    index: Map<hash::Hash, Location>,
    map: Map<u32, BundleId>,
    lists: Map<BundleId, Seq<ChunkEntry>>,
) -> bool {
    forall|h: hash::Hash| #[trigger] index.dom().contains(h) ==> entry_ok(map, lists, h, index[h])
}

/// Whether `id` is the smallest id above `floor` that `map` does not hold.
pub open spec fn is_next_free(map: Map<u32, BundleId>, floor: u32, id: u32) -> bool {
    &&& floor < id
    &&& !map.dom().contains(id)
    &&& forall|x: u32| floor < x < id ==> #[trigger] map.dom().contains(x)
}

/// Whether `map` holds every id above `floor`.
pub open spec fn ids_exhausted(map: Map<u32, BundleId>, floor: u32) -> bool {
    forall|x: u32| floor < x ==> #[trigger] map.dom().contains(x)
}

/// Whether `map` leaves two ids above 0 free: the smallest of them and the next one.
pub open spec fn two_free(map: Map<u32, BundleId>) -> bool {
    exists|a: u32, b: u32| #[trigger] is_next_free(map, 0, a) && #[trigger] is_next_free(map, a, b)
}

/// A table without rows leaves the ids 1 and 2 free.
pub proof fn lemma_two_free_empty()
    ensures
        two_free(Map::<u32, BundleId>::empty()),
        is_next_free(Map::<u32, BundleId>::empty(), 0, 1),
        is_next_free(Map::<u32, BundleId>::empty(), 1, 2),
{
    let map = Map::<u32, BundleId>::empty();
    assert(is_next_free(map, 0, 1));
    assert(is_next_free(map, 1, 2));
}

/// A table that leaves two ids free is not exhausted above 0, nor above its smallest free
/// id.
pub proof fn lemma_two_free(map: Map<u32, BundleId>)
    requires
        two_free(map),
    ensures
        !ids_exhausted(map, 0),
        forall|a: u32| is_next_free(map, 0, a) ==> !ids_exhausted(map, a),
{
    let (a0, b0) = choose|a: u32, b: u32| #[trigger]
        is_next_free(map, 0, a) && #[trigger] is_next_free(map, a, b);
    assert(!map.dom().contains(a0));
    assert(!map.dom().contains(b0));
    assert forall|a: u32| is_next_free(map, 0, a) implies !ids_exhausted(map, a) by {
        if a < a0 {
            assert(map.dom().contains(a));
        } else if a0 < a {
            assert(map.dom().contains(a0));
        }
    }
}

/// A part of a table that leaves two ids free leaves two ids free.
pub proof fn lemma_two_free_within(part: Map<u32, BundleId>, map: Map<u32, BundleId>)
    requires
        two_free(map),
        within(part, map),
    ensures
        !ids_exhausted(part, 0),
        forall|a: u32| is_next_free(part, 0, a) ==> !ids_exhausted(part, a),
{
    let (a0, b0) = choose|a: u32, b: u32| #[trigger]
        is_next_free(map, 0, a) && #[trigger] is_next_free(map, a, b);
    assert(!part.dom().contains(a0));
    assert(!part.dom().contains(b0));
    assert forall|a: u32| is_next_free(part, 0, a) implies !ids_exhausted(part, a) by {
        if a0 < a {
            assert(part.dom().contains(a0));
        } else if a < a0 {
            assert(!part.dom().contains(a0));
        } else {
            assert(!part.dom().contains(b0));
        }
    }
}

/// Whether the remote holds every bundle that the cache knows.
pub open spec fn nothing_gone(cache: Seq<BundleMeta>, remote: Seq<StoredBundle>) -> bool {
    forall|k: int| 0 <= k < cache.len() ==> bundles_list(remote, (#[trigger] cache[k]).info.id)
}

/// Whether the cache knows every bundle that the remote holds.
pub open spec fn nothing_new(cache: Seq<BundleMeta>, remote: Seq<StoredBundle>) -> bool {
    forall|j: int| 0 <= j < remote.len() ==> metas_list(cache, (#[trigger] remote[j]).info.id)
}

/// Whether every id of `rows` leaves `need` ids above it.
pub open spec fn ids_spare(rows: Seq<MapEntry>, need: nat) -> bool {
    &&& need < u32::MAX
    &&& forall|k: int| 0 <= k < rows.len() ==> (#[trigger] rows[k]).id + need < u32::MAX
}

/// Whether there is room to take up every bundle of `remote` that the cache does not know:
/// ids for all of them and two more, and room in the index for each of their chunks.
pub open spec fn spare(local: &LocalState, remote: &RemoteState) -> bool {
    &&& ids_spare(local.bundle_map@, remote.bundles@.len() + 4)
    &&& local.index.spec_filled() + new_load(
        local.cache@,
        remote.bundles@,
        remote.bundles@.len() as int,
    ) < crate::index::ROOMY
}

/// Whether a repository over `local` and `remote` is owed: the configuration can be used,
/// the listing is valid, the persisted bundle map names nothing twice, and either the cache
/// knows every bundle that the remote holds and the bundle map leaves two ids free, or there
/// is room to take up the bundles that it does not know.
pub open spec fn opens(local: &LocalState, remote: &RemoteState) -> bool {
    &&& local.config.valid()
    &&& listing_valid(local.cache@, remote.bundles@)
    &&& rows_injective(local.bundle_map@)
    &&& (nothing_new(local.cache@, remote.bundles@) && two_free(rows_map(local.bundle_map@)))
        || spare(local, remote)
}

/// The smallest id above `floor` that `map` does not hold, where `x` is an id above
/// `floor` that it does not hold and it holds every id between `floor` and `c`.
pub proof fn lemma_first_free(map: Map<u32, BundleId>, floor: u32, c: u32, x: u32) -> (a: u32)
    requires
        floor < c <= x,
        !map.dom().contains(x),
        forall|y: u32| floor < y < c ==> #[trigger] map.dom().contains(y),
    ensures
        is_next_free(map, floor, a),
        a <= x,
    decreases x - c,
{
    if !map.dom().contains(c) {
        c
    } else {
        let next = (c + 1) as u32;
        assert forall|y: u32| floor < y < next implies #[trigger] map.dom().contains(y) by {
            if y == c {
            }
        }
        lemma_first_free(map, floor, next, x)
    }
}

/// A bundle map whose ids leave two ids above them leaves two ids free.
pub proof fn lemma_spare_free(rows: Seq<MapEntry>)
    requires
        ids_spare(rows, 2),
    ensures
        two_free(rows_map(rows)),
{
    let map = rows_map(rows);
    assert forall|x: u32| #[trigger] map.dom().contains(x) implies x + 2 < u32::MAX by {
        let k = choose|k: int| 0 <= k < rows.len() && (#[trigger] rows[k]).id == x;
        assert(rows[k].id + 2 < u32::MAX);
    }
    let top: u32 = u32::MAX;
    let below: u32 = (u32::MAX - 1) as u32;
    assert(!map.dom().contains(top));
    assert(!map.dom().contains(below));
    let a = lemma_first_free(map, 0, 1, below);
    let b = lemma_first_free(map, a, (a + 1) as u32, top);
    assert(is_next_free(map, 0, a) && is_next_free(map, a, b));
}

/// The smallest free id above a floor lies at most one above the floor or at the bound of
/// the ids in use.
pub proof fn lemma_next_free_bound(map: Map<u32, BundleId>, floor: u32, id: u32, b: int)
    requires
        is_next_free(map, floor, id),
        forall|x: u32| #[trigger] map.dom().contains(x) ==> x < b,
        floor < b,
    ensures
        id <= b,
{
    if id > floor + 1 {
        let x = (id - 1) as u32;
        assert(map.dom().contains(x));
    }
}

/// What a new repository leaves behind when it is given up can be opened again.
pub proof fn lemma_fresh_opens(local: &LocalState, remote: &RemoteState)
    requires
        local.config.valid(),
        local.cache@ == Seq::<BundleMeta>::empty(),
        local.bundle_map@ == Seq::<MapEntry>::empty(),
        remote.bundles@ == Seq::<StoredBundle>::empty(),
    ensures
        opens(local, remote),
        rows_map(local.bundle_map@) == Map::<u32, BundleId>::empty(),
{
    lemma_two_free_empty();
    assert(rows_map(local.bundle_map@) =~= Map::<u32, BundleId>::empty());
}

/// The larger of two ids.
pub open spec fn max_id(a: u32, b: u32) -> u32 {
    if a >= b {
        a
    } else {
        b
    }
}

/// Recording the chunk list of a bundle that the map and the store know keeps the index
/// sound.
pub proof fn lemma_apply_sound(
    index: Map<hash::Hash, Location>,
    map: Map<u32, BundleId>,
    lists: Map<BundleId, Seq<ChunkEntry>>,
    bundle: u32,
    upto: int,
)
    requires
        index_sound(index, map, lists),
        map.dom().contains(bundle),
        lists.dom().contains(map[bundle]),
        0 <= upto <= lists[map[bundle]].len() <= MAX_CHUNKS,
    ensures
        index_sound(apply_chunks(index, lists[map[bundle]], bundle, upto), map, lists),
{
    lemma_apply_chunks(index, lists[map[bundle]], bundle, upto);
    let after = apply_chunks(index, lists[map[bundle]], bundle, upto);
    assert forall|h: hash::Hash| #[trigger] after.dom().contains(h) implies entry_ok(
        map,
        lists,
        h,
        after[h],
    ) by {
        if index.dom().contains(h) && after[h] == index[h] {
            assert(entry_ok(map, lists, h, index[h]));
        }
    }
}

/// Making a new bundle known keeps the index sound.
pub proof fn lemma_grow_sound(
    index: Map<hash::Hash, Location>,
    map: Map<u32, BundleId>,
    lists: Map<BundleId, Seq<ChunkEntry>>,
    bundle: u32,
    id: BundleId,
    chunks: Seq<ChunkEntry>,
)
    requires
        index_sound(index, map, lists),
        !map.dom().contains(bundle),
        !lists.dom().contains(id),
    ensures
        index_sound(index, map.insert(bundle, id), lists.insert(id, chunks)),
{
    assert forall|h: hash::Hash| #[trigger] index.dom().contains(h) implies entry_ok(
        map.insert(bundle, id),
        lists.insert(id, chunks),
        h,
        index[h],
    ) by {
        assert(entry_ok(map, lists, h, index[h]));
    }
}

/// Forgetting a bundle that no index entry points into keeps the index sound.
pub proof fn lemma_shrink_sound(
    index: Map<hash::Hash, Location>,
    map: Map<u32, BundleId>,
    lists: Map<BundleId, Seq<ChunkEntry>>,
    bundle: u32,
)
    requires
        index_sound(index, map, lists),
        crate::bundle_map::injective(map),
        map.dom().contains(bundle),
        forall|h: hash::Hash| #[trigger] index.dom().contains(h) ==> index[h].bundle != bundle,
    ensures
        index_sound(index, map.remove(bundle), lists.remove(map[bundle])),
{
    assert forall|h: hash::Hash| #[trigger] index.dom().contains(h) implies entry_ok(
        map.remove(bundle),
        lists.remove(map[bundle]),
        h,
        index[h],
    ) by {
        assert(entry_ok(map, lists, h, index[h]));
        assert(index[h].bundle != bundle);
    }
}

/// Making a bundle that the store knows stand behind a new small id keeps the index sound.
pub proof fn lemma_map_grow_sound(
    index: Map<hash::Hash, Location>,
    map: Map<u32, BundleId>,
    lists: Map<BundleId, Seq<ChunkEntry>>,
    bundle: u32,
    id: BundleId,
)
    requires
        index_sound(index, map, lists),
        !map.dom().contains(bundle),
    ensures
        index_sound(index, map.insert(bundle, id), lists),
{
    assert forall|h: hash::Hash| #[trigger] index.dom().contains(h) implies entry_ok(
        map.insert(bundle, id),
        lists,
        h,
        index[h],
    ) by {
        assert(entry_ok(map, lists, h, index[h]));
    }
}

/// The smallest id above `floor` that `map` does not hold, or nothing if it holds them all.
pub fn free_above(map: &BundleMap, floor: u32) -> (r: Option<u32>)
    requires
        map.wf(),
    ensures
        match r {
            Some(id) => is_next_free(map@, floor, id),
            None => ids_exhausted(map@, floor),
        },
{
    if floor == u32::MAX {
        return None;
    }
    let mut id = floor + 1;
    while map.get(id).is_some()
        invariant
            map.wf(),
            floor < id,
            forall|x: u32| floor < x < id ==> #[trigger] map@.dom().contains(x),
        decreases u32::MAX - id,
    {
        if id == u32::MAX {
            assert forall|x: u32| floor < x implies #[trigger] map@.dom().contains(x) by {
                if x < id {
                    assert(map@.dom().contains(x));
                }
            }
            return None;
        }
        id += 1;
    }
    Some(id)
}

/// What a snapshot manifest says of how and when it was made: all that the engine reads of
/// it.
#[derive(Clone, Copy, Debug, PartialEq, Eq)]
pub struct BackupHeader {
    /// Seconds since the epoch at which the snapshot was taken.
    pub timestamp: i64,
    /// The configuration that the snapshot was written with.
    pub config: Config,
}

/// Whether `i` is the place of the latest of `backups`: no snapshot is younger, and none
/// behind it is as young.
pub open spec fn is_latest(backups: Seq<BackupHeader>, i: int) -> bool {
    &&& 0 <= i < backups.len()
    &&& forall|j: int| 0 <= j < i ==> (#[trigger] backups[j]).timestamp <= backups[i].timestamp
    &&& forall|j: int|
        i < j < backups.len() ==> (#[trigger] backups[j]).timestamp < backups[i].timestamp
}

/// The place of the latest snapshot, if there is any snapshot.
pub fn latest_backup(backups: &Vec<BackupHeader>) -> (r: Option<usize>)
    ensures
        match r {
            Some(i) => is_latest(backups@, i as int),
            None => backups@.len() == 0,
        },
{
    if backups.len() == 0 {
        return None;
    }
    let mut best: usize = 0;
    let mut k: usize = 1;
    while k < backups.len()
        invariant
            1 <= k <= backups@.len(),
            is_latest(backups@.subrange(0, k as int), best as int),
        decreases backups@.len() - k,
    {
        let ghost prefix = backups@.subrange(0, k as int);
        let ghost next = backups@.subrange(0, k + 1);
        proof {
            assert forall|j: int| 0 <= j < k implies next[j] == prefix[j] by {}
        }
        if backups[k].timestamp >= backups[best].timestamp {
            proof {
                assert forall|j: int| 0 <= j < k implies (#[trigger] next[j]).timestamp
                    <= next[k as int].timestamp by {
                    assert(prefix[j].timestamp <= prefix[best as int].timestamp);
                }
            }
            best = k;
        } else {
            proof {
                assert forall|j: int| best < j < k + 1 implies (#[trigger] next[j]).timestamp
                    < next[best as int].timestamp by {
                    if j < k {
                        assert(prefix[j].timestamp < prefix[best as int].timestamp);
                    }
                }
                assert forall|j: int| 0 <= j < best implies (#[trigger] next[j]).timestamp
                    <= next[best as int].timestamp by {
                    assert(prefix[j].timestamp <= prefix[best as int].timestamp);
                }
            }
        }
        k += 1;
    }
    assert(backups@.subrange(0, k as int) =~= backups@);
    Some(best)
}

/// Where and when a snapshot was taken: what is read of a manifest to find the snapshot
/// that a new one of the same source can build on.
#[derive(Debug)]
pub struct BackupSource {
    /// Seconds since the epoch at which the snapshot was taken.
    pub timestamp: i64,
    /// The name of the host that the snapshot was taken on.
    pub host: Vec<u8>,
    /// The path that the snapshot was taken of.
    pub path: Vec<u8>,
}

/// Whether snapshot `i` was taken on `host` of `path`.
pub open spec fn same_source(backups: Seq<BackupSource>, host: Seq<u8>, path: Seq<u8>, i: int) -> bool {
    backups[i].host@ == host && backups[i].path@ == path
}

/// Whether `i` is the place of the reference among `backups`: the latest of those that were
/// taken on `host` of `path`, and of the youngest of them the last.
pub open spec fn is_reference(backups: Seq<BackupSource>, host: Seq<u8>, path: Seq<u8>, i: int) -> bool {
    &&& 0 <= i < backups.len()
    &&& same_source(backups, host, path, i)
    &&& forall|j: int|
        0 <= j < i && #[trigger] same_source(backups, host, path, j) ==> backups[j].timestamp
            <= backups[i].timestamp
    &&& forall|j: int|
        i < j < backups.len() && #[trigger] same_source(backups, host, path, j)
            ==> backups[j].timestamp < backups[i].timestamp
}

/// Whether two byte strings are the same.
fn same_bytes(a: &[u8], b: &[u8]) -> (r: bool)
    ensures
        r == (a@ == b@),
{
    if a.len() != b.len() {
        return false;
    }
    let mut k: usize = 0;
    while k < a.len()
        invariant
            a@.len() == b@.len(),
            k <= a@.len(),
            forall|j: int| 0 <= j < k ==> a@[j] == b@[j],
        decreases a@.len() - k,
    {
        if a[k] != b[k] {
            return false;
        }
        k += 1;
    }
    assert(a@ =~= b@);
    true
}

/// The place of the snapshot that a new snapshot of `path` on `host` can build on: the
/// latest that was taken on that host of that path, if there is one.
pub fn find_reference_backup(backups: &Vec<BackupSource>, host: &[u8], path: &[u8]) -> (r: Option<
    usize,
>)
    ensures
        match r {
            Some(i) => is_reference(backups@, host@, path@, i as int),
            None => forall|j: int|
                0 <= j < backups@.len() ==> !#[trigger] same_source(backups@, host@, path@, j),
        },
{
    let mut best: Option<usize> = None;
    let mut k: usize = 0;
    while k < backups.len()
        invariant
            k <= backups@.len(),
            match best {
                Some(i) => i < k && is_reference(backups@.subrange(0, k as int), host@, path@, i as int),
                None => forall|j: int|
                    0 <= j < k ==> !#[trigger] same_source(backups@, host@, path@, j),
            },
        decreases backups@.len() - k,
    {
        let ghost prefix = backups@.subrange(0, k as int);
        let ghost next = backups@.subrange(0, k + 1);
        proof {
            assert forall|j: int| 0 <= j < k implies same_source(next, host@, path@, j)
                == same_source(prefix, host@, path@, j) && next[j].timestamp
                == prefix[j].timestamp by {
                assert(next[j] == prefix[j]);
            }
            assert forall|j: int| 0 <= j < k implies same_source(backups@, host@, path@, j)
                == same_source(prefix, host@, path@, j) by {
                assert(backups@[j] == prefix[j]);
            }
            assert(next[k as int] == backups@[k as int]);
        }
        let here = same_bytes(backups[k].host.as_slice(), host) && same_bytes(
            backups[k].path.as_slice(),
            path,
        );
        if here {
            let newer = match best {
                Some(i) => backups[k].timestamp >= backups[i].timestamp,
                None => true,
            };
            if newer {
                proof {
                    assert forall|j: int|
                        0 <= j < k && #[trigger] same_source(
                            next,
                            host@,
                            path@,
                            j,
                        ) implies next[j].timestamp <= next[k as int].timestamp by {
                        assert(same_source(prefix, host@, path@, j));
                        assert(same_source(backups@, host@, path@, j));
                        if best is Some {
                            let i = best->0;
                            assert(prefix[i as int] == backups@[i as int]);
                            if j < i {
                                assert(prefix[j].timestamp <= prefix[i as int].timestamp);
                            } else if j > i {
                                assert(prefix[j].timestamp < prefix[i as int].timestamp);
                            }
                        }
                    }
                    assert(same_source(next, host@, path@, k as int));
                }
                best = Some(k);
            } else {
                proof {
                    let i = best->0;
                    assert(prefix[i as int] == backups@[i as int]);
                    assert forall|j: int|
                        i < j < k + 1 && #[trigger] same_source(
                            next,
                            host@,
                            path@,
                            j,
                        ) implies next[j].timestamp < next[i as int].timestamp by {
                        if j < k {
                            assert(same_source(prefix, host@, path@, j));
                        }
                    }
                    assert forall|j: int|
                        0 <= j < i && #[trigger] same_source(
                            next,
                            host@,
                            path@,
                            j,
                        ) implies next[j].timestamp <= next[i as int].timestamp by {
                        assert(same_source(prefix, host@, path@, j));
                    }
                    assert(same_source(prefix, host@, path@, i as int));
                    assert(same_source(next, host@, path@, i as int));
                }
            }
        } else {
            proof {
                assert(!same_source(next, host@, path@, k as int));
                if best is Some {
                    let i = best->0;
                    assert(prefix[i as int] == backups@[i as int]);
                    assert forall|j: int|
                        i < j < k + 1 && #[trigger] same_source(
                            next,
                            host@,
                            path@,
                            j,
                        ) implies next[j].timestamp < next[i as int].timestamp by {
                        assert(j < k);
                        assert(same_source(prefix, host@, path@, j));
                    }
                    assert forall|j: int|
                        0 <= j < i && #[trigger] same_source(
                            next,
                            host@,
                            path@,
                            j,
                        ) implies next[j].timestamp <= next[i as int].timestamp by {
                        assert(same_source(prefix, host@, path@, j));
                    }
                    assert(same_source(prefix, host@, path@, i as int));
                    assert(same_source(next, host@, path@, i as int));
                }
            }
        }
        k += 1;
    }
    assert(backups@.subrange(0, k as int) =~= backups@);
    best
}

/// The place of the latest of `backups`.
pub open spec fn latest_of(backups: Seq<BackupHeader>) -> int {
    choose|i: int| is_latest(backups, i)
}

/// There is one latest snapshot at most.
pub proof fn lemma_latest_unique(backups: Seq<BackupHeader>, i: int, j: int)
    requires
        is_latest(backups, i),
        j == latest_of(backups),
    ensures
        i == j,
{
    assert(is_latest(backups, j));
    if i < j {
        assert(backups[j].timestamp < backups[i].timestamp);
        assert(backups[i].timestamp <= backups[j].timestamp);
    }
    if j < i {
        assert(backups[i].timestamp < backups[j].timestamp);
        assert(backups[j].timestamp <= backups[i].timestamp);
    }
}

/// Whether `e` is a failure of storing or reading chunks and bundles: not one of locking,
/// of the embedding's files, of the configuration, or of a check.
pub open spec fn storage_failure(e: RepositoryError) -> bool {
    match e {
        RepositoryError::IdsExhausted
        | RepositoryError::Compress
        | RepositoryError::BundleMapCorrupt
        | RepositoryError::IndexFull
        | RepositoryError::BundleMissing(_)
        | RepositoryError::BundleIdMissing(_)
        | RepositoryError::ChunkMissing(_)
        | RepositoryError::IndexCorrupt
        | RepositoryError::KeyMissing(_)
        | RepositoryError::Decrypt
        | RepositoryError::BundleFormat => true,
        _ => false,
    }
}

/// Whether `e` says that a lock could not be taken.
pub open spec fn is_lock_error(e: RepositoryError) -> bool {
    e is LockBusy || e is LockStale
}

/// Whether every entry of `a` is an entry of `b`.
pub open spec fn within<K, V>(a: Map<K, V>, b: Map<K, V>) -> bool {
    forall|k: K| #[trigger] a.dom().contains(k) ==> b.dom().contains(k) && a[k] == b[k]
}

/// The content-ids of `headers`.
pub open spec fn header_ids(headers: Seq<BundleInfo>) -> Seq<BundleId> {
    headers.map_values(|b: BundleInfo| b.id)
}

/// The content-ids of a list with one header more.
pub proof fn lemma_header_ids_push(headers: Seq<BundleInfo>, last: BundleInfo)
    ensures
        forall|id: BundleId|
            header_ids(headers.push(last)).contains(id) <==> header_ids(headers).contains(id) || id
                == last.id,
{
    let longer = headers.push(last);
    assert forall|id: BundleId| header_ids(longer).contains(id) <==> header_ids(headers).contains(
        id,
    ) || id == last.id by {
        if header_ids(longer).contains(id) {
            let k = choose|k: int|
                0 <= k < header_ids(longer).len() && #[trigger] header_ids(longer)[k] == id;
            if k < headers.len() {
                assert(header_ids(headers)[k] == id);
            }
        }
        if header_ids(headers).contains(id) {
            let k = choose|k: int|
                0 <= k < header_ids(headers).len() && #[trigger] header_ids(headers)[k] == id;
            assert(header_ids(longer)[k] == id);
        }
        if id == last.id {
            assert(header_ids(longer)[headers.len() as int] == id);
        }
    }
}

/// The chunk lists that `cache` spells out, by content-id.
pub open spec fn meta_lists(cache: Seq<BundleMeta>) -> Map<BundleId, Seq<ChunkEntry>> {
    Map::new(
        |id: BundleId| metas_list(cache, id),
        |id: BundleId|
            cache[choose|k: int| 0 <= k < cache.len() && (#[trigger] cache[k]).info.id == id].chunks@,
    )
}

/// Whether what the local directory holds is sound in itself: every entry of the persisted
/// index names a bundle of the persisted bundle map whose cached chunk list has the entry's
/// hash at the entry's place.
pub open spec fn local_sound(local: &LocalState) -> bool {
    index_sound(local.index@, rows_map(local.bundle_map@), meta_lists(local.cache@))
}

/// Whether the remote bundle `bundle` is known: with the header and the chunk list that
/// the cache has of it, or with its own if the cache has none.
pub open spec fn known_as(
    infos: Map<BundleId, BundleInfo>,
    lists: Map<BundleId, Seq<ChunkEntry>>,
    cache: Seq<BundleMeta>,
    bundle: StoredBundle,
) -> bool {
    let id = bundle.info.id;
    &&& infos.dom().contains(id)
    &&& lists.dom().contains(id)
    &&& if metas_list(cache, id) {
        exists|k: int|
            0 <= k < cache.len() && (#[trigger] cache[k]).info == infos[id] && cache[k].chunks@
                == lists[id] && cache[k].info.id == id
    } else {
        infos[id] == bundle.info && lists[id] == bundle.chunks@
    }
}

/// Whether the remote holds the bundles that the cache knows, and no others.
pub open spec fn unchanged_remote(cache: Seq<BundleMeta>, remote: Seq<StoredBundle>) -> bool {
    &&& forall|j: int|
        0 <= j < remote.len() ==> metas_list(cache, (#[trigger] remote[j]).info.id)
    &&& forall|k: int|
        0 <= k < cache.len() ==> bundles_list(remote, (#[trigger] cache[k]).info.id)
}

/// Whether a bundle of `cache` is gone: `remote` does not hold it.
pub open spec fn gone(cache: Seq<BundleMeta>, remote: Seq<StoredBundle>, id: BundleId) -> bool {
    metas_list(cache, id) && !bundles_list(remote, id)
}

/// Whether `cache` spells out the headers `infos` and the chunk lists `lists`.
pub open spec fn cache_matches(
    cache: Seq<BundleMeta>,
    infos: Map<BundleId, BundleInfo>,
    lists: Map<BundleId, Seq<ChunkEntry>>,
) -> bool {
    &&& metas_unique(cache)
    &&& forall|k: int|
        0 <= k < cache.len() ==> infos.contains_pair((#[trigger] cache[k]).info.id, cache[k].info)
            && lists.contains_pair(cache[k].info.id, cache[k].chunks@)
    &&& forall|id: BundleId| infos.dom().contains(id) ==> metas_list(cache, id)
}

/// The entries of `index` that do not point into bundle `bundle`.
pub open spec fn without_bundle(index: Map<hash::Hash, Location>, bundle: u32) -> Map<
    hash::Hash,
    Location,
> {
    index.restrict(Set::new(|h: hash::Hash| index.dom().contains(h) && index[h].bundle != bundle))
}

/// The index that is built from nothing by recording, row by row, the chunk lists of the
/// first `upto` bundles of `rows`.
pub open spec fn rebuilt(
    rows: Seq<MapEntry>,
    lists: Map<BundleId, Seq<ChunkEntry>>,
    upto: int,
) -> Map<hash::Hash, Location>
    decreases upto,
{
    if upto <= 0 {
        Map::empty()
    } else {
        let row = rows[upto - 1];
        apply_chunks(
            rebuilt(rows, lists, upto - 1),
            lists[row.bundle],
            row.id,
            lists[row.bundle].len() as int,
        )
    }
}

/// Recording chunks in an index with finitely many entries leaves finitely many, all that
/// were there, and no more than with more chunks recorded.
pub proof fn lemma_apply_dom(
    idx: Map<hash::Hash, Location>,
    chunks: Seq<ChunkEntry>,
    bundle: u32,
    upto: int,
    more: int,
)
    requires
        idx.dom().finite(),
        0 <= upto <= more,
    ensures
        apply_chunks(idx, chunks, bundle, upto).dom().finite(),
        idx.dom().subset_of(apply_chunks(idx, chunks, bundle, upto).dom()),
        apply_chunks(idx, chunks, bundle, upto).dom().subset_of(
            apply_chunks(idx, chunks, bundle, more).dom(),
        ),
        upto < more ==> apply_chunks(idx, chunks, bundle, more).dom().contains(chunks[upto].hash),
    decreases more,
{
    if upto > 0 {
        lemma_apply_dom(idx, chunks, bundle, upto - 1, upto - 1);
    }
    if upto < more {
        lemma_apply_dom(idx, chunks, bundle, upto, more - 1);
        if upto < more - 1 {
        }
    }
}

/// The index that is rebuilt from some rows has finitely many entries, and no more than
/// the index that is rebuilt from more rows.
pub proof fn lemma_rebuilt_dom(
    rows: Seq<MapEntry>,
    lists: Map<BundleId, Seq<ChunkEntry>>,
    upto: int,
    more: int,
)
    requires
        0 <= upto <= more,
    ensures
        rebuilt(rows, lists, upto).dom().finite(),
        rebuilt(rows, lists, upto).dom().subset_of(rebuilt(rows, lists, more).dom()),
    decreases more,
{
    if upto > 0 {
        lemma_rebuilt_dom(rows, lists, upto - 1, upto - 1);
        let row = rows[upto - 1];
        lemma_apply_dom(
            rebuilt(rows, lists, upto - 1),
            lists[row.bundle],
            row.id,
            lists[row.bundle].len() as int,
            lists[row.bundle].len() as int,
        );
    }
    if upto < more {
        lemma_rebuilt_dom(rows, lists, upto, more - 1);
        lemma_rebuilt_dom(rows, lists, more - 1, more - 1);
        let row = rows[more - 1];
        lemma_apply_dom(
            rebuilt(rows, lists, more - 1),
            lists[row.bundle],
            row.id,
            0,
            lists[row.bundle].len() as int,
        );
    }
}

/// The number of chunks in the chunk lists of the first `upto` bundles of `rows`.
pub open spec fn row_load(
    rows: Seq<MapEntry>,
    lists: Map<BundleId, Seq<ChunkEntry>>,
    upto: int,
) -> int
    decreases upto,
{
    if upto <= 0 {
        0
    } else {
        row_load(rows, lists, upto - 1) + lists[rows[upto - 1].bundle].len()
    }
}

/// More rows hold no fewer chunks.
pub proof fn lemma_row_load(
    rows: Seq<MapEntry>,
    lists: Map<BundleId, Seq<ChunkEntry>>,
    a: int,
    b: int,
)
    requires
        0 <= a <= b,
    ensures
        0 <= row_load(rows, lists, a) <= row_load(rows, lists, b),
    decreases b,
{
    if a < b {
        lemma_row_load(rows, lists, a, b - 1);
    } else if a > 0 {
        lemma_row_load(rows, lists, a - 1, a - 1);
    }
}

impl<C: Compressor> Repository<C> {
    /// The configuration in use.
    pub closed spec fn config(&self) -> Config {
        self.config
    }

    /// The number for the host of the process that holds this repository.
    pub closed spec fn host(&self) -> u64 {
        self.locks.host()
    }

    /// The id of the process that holds this repository.
    pub closed spec fn pid(&self) -> u32 {
        self.locks.pid()
    }

    /// The number of index slots that are not empty. While it is below `ROOMY` the index
    /// takes every hash.
    pub closed spec fn index_filled(&self) -> int {
        self.index.spec_filled()
    }

    /// The headers of the bundles that the bundle store knows, in the order in which they
    /// are kept.
    pub closed spec fn bundle_headers(&self) -> Seq<BundleInfo> {
        self.bundles.local_metas().map_values(|m: BundleMeta| m.info)
    }

    /// The number of index slots.
    pub closed spec fn index_capacity(&self) -> int {
        self.index.spec_capacity()
    }

    /// Whether the bundle map is well-formed: all that allocating an id asks for.
    pub closed spec fn map_wf(&self) -> bool {
        self.bundle_map.wf()
    }

    /// The chunk index: where each indexed hash lives.
    pub closed spec fn index(&self) -> Map<hash::Hash, Location> {
        self.index@
    }

    /// The bundle map: the content-id that each small bundle id stands for.
    pub closed spec fn bundle_map(&self) -> Map<u32, BundleId> {
        self.bundle_map@
    }

    /// The headers of the bundles that the bundle store knows.
    pub closed spec fn infos(&self) -> Map<BundleId, BundleInfo> {
        self.bundles.infos()
    }

    /// The chunk lists of the bundles that the bundle store knows.
    pub closed spec fn lists(&self) -> Map<BundleId, Seq<ChunkEntry>> {
        self.bundles.lists()
    }

    /// The data blobs on the remote.
    pub closed spec fn blobs(&self) -> Map<BundleId, Seq<u8>> {
        self.bundles.blobs()
    }

    /// The id that the next data bundle gets.
    pub closed spec fn next_data(&self) -> u32 {
        self.next_data_bundle
    }

    /// The id that the next meta bundle gets.
    pub closed spec fn next_meta(&self) -> u32 {
        self.next_meta_bundle
    }

    /// The id that the next bundle of `mode` gets.
    pub open spec fn next_id(&self, mode: BundleMode) -> u32 {
        match mode {
            BundleMode::Data => self.next_data(),
            BundleMode::Meta => self.next_meta(),
        }
    }

    /// The open bundle of `mode`, if there is one.
    pub closed spec fn writer(&self, mode: BundleMode) -> Option<BundleWriter> {
        match mode {
            BundleMode::Data => self.data_bundle,
            BundleMode::Meta => self.meta_bundle,
        }
    }

    /// The chunk list of the open bundle of `mode`; empty if there is none.
    pub open spec fn pending(&self, mode: BundleMode) -> Seq<ChunkEntry> {
        match self.writer(mode) {
            Some(w) => w.chunks(),
            None => Seq::empty(),
        }
    }

    /// The secret keys of the key store, by public key.
    pub closed spec fn keys(&self) -> Map<Seq<u8>, SecretKey> {
        self.crypto@
    }

    /// The lock files on the remote.
    pub closed spec fn lock_files(&self) -> Seq<LockFile> {
        self.locks@
    }

    /// Whether a risky operation has begun and not ended.
    pub closed spec fn is_dirty(&self) -> bool {
        self.dirty
    }

    /// The time that bundles and locks are stamped with.
    pub closed spec fn time(&self) -> u64 {
        self.now
    }

    /// The configuration as it was last saved.
    pub closed spec fn saved_config(&self) -> Config {
        self.saved_config
    }

    /// The rows of the bundle map as they were last saved.
    pub closed spec fn saved_map(&self) -> Seq<MapEntry> {
        self.saved_map@
    }

    /// The bundle headers and chunk lists as the cache last saved them.
    pub closed spec fn saved_cache(&self) -> Seq<BundleMeta> {
        self.saved_cache@
    }

    /// The structural invariant of a repository: every component is well-formed, the two
    /// watermarks are distinct ids that the bundle map does not hold, and an open bundle has
    /// the mode of its slot and room for one more chunk.
    pub closed spec fn wf(&self) -> bool {
        &&& self.index.wf()
        &&& self.crypto.wf()
        &&& self.bundle_map.wf()
        &&& self.bundles.wf()
        &&& self.next_data_bundle != self.next_meta_bundle
        &&& !self.bundle_map@.dom().contains(self.next_data_bundle)
        &&& !self.bundle_map@.dom().contains(self.next_meta_bundle)
        &&& self.data_bundle matches Some(w) ==> w.wf() && w.mode() == BundleMode::Data
            && w.chunks().len() < MAX_CHUNKS
        &&& self.meta_bundle matches Some(w) ==> w.wf() && w.mode() == BundleMode::Meta
            && w.chunks().len() < MAX_CHUNKS
    }

    /// The structural invariant but for the room in the open bundles: they may be full.
    pub closed spec fn wf_full(&self) -> bool {
        &&& self.index.wf()
        &&& self.crypto.wf()
        &&& self.bundle_map.wf()
        &&& self.bundles.wf()
        &&& self.next_data_bundle != self.next_meta_bundle
        &&& !self.bundle_map@.dom().contains(self.next_data_bundle)
        &&& !self.bundle_map@.dom().contains(self.next_meta_bundle)
        &&& self.data_bundle matches Some(w) ==> w.wf() && w.mode() == BundleMode::Data
        &&& self.meta_bundle matches Some(w) ==> w.wf() && w.mode() == BundleMode::Meta
    }

    /// The index invariant: every index entry names a bundle that the bundle map holds, and
    /// that bundle's chunk list has the entry's hash at the entry's place.
    pub open spec fn consistent(&self) -> bool {
        index_sound(self.index(), self.bundle_map(), self.lists())
    }

    /// What the structural invariant says of the views.
    pub proof fn lemma_wf(&self)
        requires
            self.wf(),
        ensures
            self.map_wf(),
            self.next_data() != self.next_meta(),
            !self.bundle_map().dom().contains(self.next_data()),
            !self.bundle_map().dom().contains(self.next_meta()),
            crate::bundle_map::injective(self.bundle_map()),
            self.index().dom().finite(),
            self.infos().dom() == self.lists().dom(),
            forall|mode: BundleMode| #[trigger] self.pending(mode).len() < MAX_CHUNKS,
            forall|mode: BundleMode|
                self.writer(mode) matches Some(w) ==> w.data().len() == crate::bundle::total_len(
                    #[trigger] self.pending(mode),
                ) && w.mode() == mode,
            forall|id: BundleId| #[trigger]
                self.infos().dom().contains(id) ==> self.infos()[id].id == id
                    && crate::bundle::meta_wf(self.infos()[id], self.lists()[id]),
    {
        self.bundle_map.lemma_injective();
        self.index.lemma_finite();
        self.bundles.lemma_views();
        assert forall|mode: BundleMode| #[trigger] self.pending(mode).len() < MAX_CHUNKS by {
            match mode {
                BundleMode::Data => {},
                BundleMode::Meta => {},
            }
        }
        assert forall|mode: BundleMode|
            self.writer(mode) is Some implies self.writer(mode)->0.data().len()
            == crate::bundle::total_len(#[trigger] self.pending(mode)) && self.writer(
            mode,
        )->0.mode() == mode by {
            match mode {
                BundleMode::Data => {
                    self.data_bundle->0.lemma_sized();
                },
                BundleMode::Meta => {
                    self.meta_bundle->0.lemma_sized();
                },
            }
        }
    }

    /// What the structural invariant says of the remote: the blob of every bundle that lies
    /// there is stored under its content-id, and nothing else is stored.
    pub proof fn lemma_remote(&self)
        requires
            self.wf(),
        ensures
            forall|k: int|
                0 <= k < self.remote_bundles().len() ==> self.blobs().contains_pair(
                    (#[trigger] self.remote_bundles()[k]).info.id,
                    self.remote_bundles()[k].data@,
                ),
            forall|id: BundleId|
                self.blobs().dom().contains(id) ==> bundles_list(self.remote_bundles(), id),
            forall|k: int|
                0 <= k < self.remote_bundles().len() ==> (#[trigger] self.remote_bundles()[k]).wf(),
            crate::bundle_db::bundles_unique(self.remote_bundles()),
    {
        self.bundles.lemma_views();
    }

    /// The index invariant, spelled out: in a repository whose index is sound, the bundle
    /// of every index entry is in the bundle map, the bundle store knows its chunk list,
    /// and the list holds the entry's hash at the entry's place.
    pub proof fn lemma_index_invariant(&self, h: hash::Hash)
        requires
            self.consistent(),
            self.index().dom().contains(h),
        ensures
            self.bundle_map().dom().contains(self.index()[h].bundle),
            self.lists().dom().contains(self.bundle_map()[self.index()[h].bundle]),
            self.index()[h].chunk < self.lists()[self.bundle_map()[self.index()[h].bundle]].len(),
            self.lists()[self.bundle_map()[self.index()[h].bundle]][self.index()[h].chunk as int].hash
                == h,
    {
        assert(entry_ok(self.bundle_map(), self.lists(), h, self.index()[h]));
    }

    /// Publishing a bundle indexes every chunk of it: a chunk that is submitted again
    /// afterwards is found in the index.
    pub proof fn lemma_published_indexed(&self, new: &Self, mode: BundleMode, i: int)
        requires
            self.published(new, mode, self.pending(mode).len() as int),
            self.pending(mode).len() <= MAX_CHUNKS,
            0 <= i < self.pending(mode).len(),
        ensures
            new.index().dom().contains(self.pending(mode)[i].hash),
            new.index()[self.pending(mode)[i].hash].bundle == self.next_id(mode),
            new.bundle_map().dom().contains(self.next_id(mode)),
    {
        lemma_apply_chunks(
            self.index(),
            self.pending(mode),
            self.next_id(mode),
            self.pending(mode).len() as int,
        );
    }

    /// Whether `remote` is an absolute path.
    pub open spec fn absolute(remote: Seq<char>) -> bool {
        remote.len() > 0 && remote[0] == '/'
    }

    /// Makes a new, empty repository whose remote lies at `remote`. The path has to be
    /// absolute; nothing else is asked. The configuration is taken as it is: one that cannot
    /// be used is refused where it is used, when a stream is written or the repository is
    /// opened again.
    pub fn create(config: Config, remote: &str, session: Session, codec: C) -> (r: Result<
        Repository<C>,
        RepositoryError,
    >)
        ensures
            r is Ok <==> Self::absolute(remote@),
            r matches Err(e) ==> e == RepositoryError::ConfigInvalid,
            r matches Ok(repo) ==> {
                &&& repo.wf()
                &&& repo.consistent()
                &&& repo.stores_known()
                &&& repo.remote_bundles() == Seq::<StoredBundle>::empty()
                &&& repo.bundle_headers() == Seq::<BundleInfo>::empty()
                &&& repo.bundle_rows() == Seq::<MapEntry>::empty()
                &&& repo.index_filled() == 0
                &&& repo.host() == session.host
                &&& repo.pid() == session.pid
                &&& repo.config() == config
                &&& repo.saved_config() == config
                &&& repo.index() == Map::<hash::Hash, Location>::empty()
                &&& repo.bundle_map() == Map::<u32, BundleId>::empty()
                &&& repo.infos() == Map::<BundleId, BundleInfo>::empty()
                &&& repo.lists() == Map::<BundleId, Seq<ChunkEntry>>::empty()
                &&& repo.blobs() == Map::<BundleId, Seq<u8>>::empty()
                &&& repo.keys() == Map::<Seq<u8>, SecretKey>::empty()
                &&& repo.lock_files() == Seq::<LockFile>::empty()
                &&& repo.saved_map() == Seq::<MapEntry>::empty()
                &&& repo.saved_cache() == Seq::<BundleMeta>::empty()
                &&& repo.next_data() == 1
                &&& repo.next_meta() == 0
                &&& repo.writer(BundleMode::Data) is None
                &&& repo.writer(BundleMode::Meta) is None
                &&& !repo.is_dirty()
                &&& repo.time() == session.now
            },
    {
        if remote.unicode_len() == 0 || remote.get_char(0) != '/' {
            return Err(RepositoryError::ConfigInvalid);
        }
        sodium_init();
        assert(Seq::<BundleMeta>::empty().map_values(|m: BundleMeta| m.info) =~= Seq::<
            BundleInfo,
        >::empty());
        Ok(
            Repository {
                config,
                index: Index::new(),
                crypto: KeyStore::new(),
                bundle_map: BundleMap::create(),
                next_data_bundle: 1,
                next_meta_bundle: 0,
                bundles: BundleDb::create(),
                data_bundle: None,
                meta_bundle: None,
                locks: LockFolder::new(Vec::new(), session.host, session.pid),
                dirty: false,
                now: session.now,
                codec,
                saved_config: config,
                saved_map: Vec::new(),
                saved_cache: Vec::new(),
            },
        )
    }

    /// The configuration in use.
    pub fn get_config(&self) -> (c: Config)
        ensures
            c == self.config(),
    {
        self.config
    }

    /// Replaces the configuration in use, if the new one is valid. Bundles that are open
    /// keep the settings they were opened with. Returns whether the configuration was
    /// taken.
    pub fn set_config(&mut self, config: Config) -> (ok: bool)
        requires
            old(self).wf(),
        ensures
            final(self).wf(),
            ok == config.valid(),
            final(self).config() == (if ok {
                config
            } else {
                old(self).config()
            }),
            final(self).same_storage(old(self)),
            final(self).keys() == old(self).keys(),
            final(self).saved_config() == old(self).saved_config(),
            final(self).saved_map() == old(self).saved_map(),
            final(self).saved_cache() == old(self).saved_cache(),
            final(self).is_dirty() == old(self).is_dirty(),
            final(self).lock_files() == old(self).lock_files(),
            final(self).time() == old(self).time(),
            final(self).remote_bundles() == old(self).remote_bundles(),
    {
        if !config.is_valid() {
            return false;
        }
        self.config = config;
        true
    }

    /// Puts a key pair into the key store.
    pub fn register_key(&mut self, public: PublicKey, secret: SecretKey) -> (r: Result<
        (),
        RepositoryError,
    >)
        requires
            old(self).wf(),
        ensures
            r is Ok,
            final(self).wf(),
            final(self).keys() == old(self).keys().insert(public.bytes@, secret),
            final(self).same_storage(old(self)),
            final(self).config() == old(self).config(),
            final(self).saved_config() == old(self).saved_config(),
            final(self).saved_map() == old(self).saved_map(),
            final(self).saved_cache() == old(self).saved_cache(),
            final(self).is_dirty() == old(self).is_dirty(),
            final(self).lock_files() == old(self).lock_files(),
            final(self).time() == old(self).time(),
            final(self).remote_bundles() == old(self).remote_bundles(),
            final(self).index_filled() == old(self).index_filled(),
    {
        self.crypto.register_secret_key(public, secret);
        Ok(())
    }

    /// Whether index, bundle map, bundles, watermarks and open bundles are those of `other`.
    pub open spec fn same_storage(&self, other: &Self) -> bool {
        &&& self.index() == other.index()
        &&& self.bundle_map() == other.bundle_map()
        &&& self.infos() == other.infos()
        &&& self.lists() == other.lists()
        &&& self.blobs() == other.blobs()
        &&& self.next_data() == other.next_data()
        &&& self.next_meta() == other.next_meta()
        &&& self.writer(BundleMode::Data) == other.writer(BundleMode::Data)
        &&& self.writer(BundleMode::Meta) == other.writer(BundleMode::Meta)
    }

    /// Saves the configuration.
    pub fn save_config(&mut self) -> (r: Result<(), RepositoryError>)
        requires
            old(self).wf(),
        ensures
            r is Ok,
            final(self).wf(),
            final(self).saved_config() == old(self).config(),
            final(self).config() == old(self).config(),
            final(self).same_storage(old(self)),
            final(self).keys() == old(self).keys(),
            final(self).saved_map() == old(self).saved_map(),
            final(self).saved_cache() == old(self).saved_cache(),
            final(self).is_dirty() == old(self).is_dirty(),
            final(self).lock_files() == old(self).lock_files(),
            final(self).time() == old(self).time(),
            final(self).remote_bundles() == old(self).remote_bundles(),
    {
        self.saved_config = self.config;
        Ok(())
    }

    /// Turns encryption of new bundles on, for the recipient `public`, or off. Returns
    /// whether the secret key of the recipient is in the key store: without it the
    /// repository can write bundles that it cannot read.
    pub fn set_encryption(&mut self, public: Option<&PublicKey>) -> (known: bool)
        requires
            old(self).wf(),
        ensures
            final(self).wf(),
            final(self).config() == (Config {
                encryption: match public {
                    Some(key) => Some(Encryption { method: EncryptionMethod::Sodium, key: *key }),
                    None => None,
                },
                ..old(self).config()
            }),
            known == match public {
                Some(key) => old(self).keys().dom().contains(key.bytes@),
                None => true,
            },
            final(self).same_storage(old(self)),
            final(self).keys() == old(self).keys(),
            final(self).saved_config() == old(self).saved_config(),
    {
        match public {
            Some(key) => {
                let known = self.crypto.contains_secret_key(key);
                self.config.encryption = Some(
                    Encryption { method: EncryptionMethod::Sodium, key: *key },
                );
                known
            },
            None => {
                self.config.encryption = None;
                true
            },
        }
    }

    /// Saves the bundle map.
    pub fn save_bundle_map(&mut self) -> (r: Result<(), RepositoryError>)
        requires
            old(self).wf(),
        ensures
            r is Ok,
            final(self).wf(),
            rows_injective(final(self).saved_map()),
            rows_map(final(self).saved_map()) == old(self).bundle_map(),
            final(self).same_storage(old(self)),
            final(self).config() == old(self).config(),
            final(self).keys() == old(self).keys(),
            final(self).saved_config() == old(self).saved_config(),
            final(self).saved_cache() == old(self).saved_cache(),
            final(self).is_dirty() == old(self).is_dirty(),
            final(self).lock_files() == old(self).lock_files(),
            final(self).time() == old(self).time(),
            final(self).remote_bundles() == old(self).remote_bundles(),
            final(self).bundle_rows() == old(self).bundle_rows(),
            final(self).saved_map() == old(self).bundle_rows(),
            final(self).index_filled() == old(self).index_filled(),
            final(self).bundle_headers() == old(self).bundle_headers(),
    {
        self.saved_map = self.bundle_map.bundles();
        Ok(())
    }

    /// The smallest id above both watermarks that the bundle map does not hold, or nothing
    /// if it holds them all.
    pub fn next_free_bundle_id(&self) -> (r: Option<u32>)
        requires
            self.map_wf(),
        ensures
            match r {
                Some(id) => is_next_free(
                    self.bundle_map(),
                    max_id(self.next_data(), self.next_meta()),
                    id,
                ),
                None => ids_exhausted(
                    self.bundle_map(),
                    max_id(self.next_data(), self.next_meta()),
                ),
            },
    {
        let floor = if self.next_data_bundle >= self.next_meta_bundle {
            self.next_data_bundle
        } else {
            self.next_meta_bundle
        };
        free_above(&self.bundle_map, floor)
    }

    /// Whether `list` holds a chunk with fingerprint `h`.
    pub open spec fn listed(list: Seq<ChunkEntry>, h: hash::Hash) -> bool {
        exists|i: int| 0 <= i < list.len() && (#[trigger] list[i]).hash == h
    }

    /// Whether the repository holds a chunk with fingerprint `h`: it is indexed, or it waits
    /// in an open bundle.
    pub open spec fn holds(&self, h: hash::Hash) -> bool {
        ||| self.index().dom().contains(h)
        ||| Self::listed(self.pending(BundleMode::Data), h)
        ||| Self::listed(self.pending(BundleMode::Meta), h)
    }

    /// Whether a chunk with fingerprint `h` waits in an open bundle.
    pub open spec fn waits(&self, h: hash::Hash) -> bool {
        Self::listed(self.pending(BundleMode::Data), h) || Self::listed(
            self.pending(BundleMode::Meta),
            h,
        )
    }

    /// Whether the index entry of `h` points into a bundle that `older` does not map.
    pub open spec fn fresh(&self, older: &Self, h: hash::Hash) -> bool {
        self.index().dom().contains(h) && !older.bundle_map().dom().contains(
            self.index()[h].bundle,
        )
    }

    /// Whether `new` can have come of `self` by writing chunks and publishing bundles: the
    /// bundle map and the chunk lists have grown at most, every indexed fingerprint is
    /// indexed still, an index entry is as it was or points into a bundle that was not
    /// mapped, and a chunk that waited waits still or is indexed in such a bundle.
    pub open spec fn carried(&self, new: &Self) -> bool {
        &&& within(self.bundle_map(), new.bundle_map())
        &&& within(self.lists(), new.lists())
        &&& within(self.infos(), new.infos())
        &&& within(self.blobs(), new.blobs())
        &&& new.keeps_hashes_of(self)
        &&& forall|h: hash::Hash| #[trigger]
            new.index().dom().contains(h) ==> (self.index().dom().contains(h) && new.index()[h]
                == self.index()[h]) || new.fresh(self, h)
        &&& forall|h: hash::Hash| #[trigger] self.waits(h) ==> new.waits(h) || new.fresh(self, h)
    }

    /// Whether the bundle store knows every bundle whose blob lies on the remote.
    pub open spec fn stores_known(&self) -> bool {
        forall|id: BundleId| #[trigger]
            self.blobs().dom().contains(id) ==> self.infos().dom().contains(id)
    }

    /// Whether the bundle map and the bundles of `new` hold all that those of `self` hold:
    /// nothing was deleted.
    pub open spec fn grown(&self, new: &Self) -> bool {
        &&& within(self.bundle_map(), new.bundle_map())
        &&& within(self.lists(), new.lists())
        &&& within(self.infos(), new.infos())
        &&& within(self.blobs(), new.blobs())
    }

    /// What was not deleted in two steps was not deleted.
    pub proof fn lemma_grown_twice(&self, mid: &Self, new: &Self)
        requires
            self.grown(mid),
            mid.grown(new),
        ensures
            self.grown(new),
    {
        assert forall|k: u32| #[trigger] self.bundle_map().dom().contains(k) implies new.bundle_map().dom().contains(
            k,
        ) && self.bundle_map()[k] == new.bundle_map()[k] by {
            assert(mid.bundle_map().dom().contains(k));
        }
        assert forall|k: BundleId| #[trigger] self.lists().dom().contains(k) implies new.lists().dom().contains(
            k,
        ) && self.lists()[k] == new.lists()[k] by {
            assert(mid.lists().dom().contains(k));
        }
        assert forall|k: BundleId| #[trigger] self.infos().dom().contains(k) implies new.infos().dom().contains(
            k,
        ) && self.infos()[k] == new.infos()[k] by {
            assert(mid.infos().dom().contains(k));
        }
        assert forall|k: BundleId| #[trigger] self.blobs().dom().contains(k) implies new.blobs().dom().contains(
            k,
        ) && self.blobs()[k] == new.blobs()[k] by {
            assert(mid.blobs().dom().contains(k));
        }
    }

    /// Writing and publishing in two steps is writing and publishing.
    pub proof fn lemma_carried_twice(&self, mid: &Self, new: &Self)
        requires
            self.carried(mid),
            mid.carried(new),
        ensures
            self.carried(new),
    {
        assert forall|h: hash::Hash| #[trigger] new.index().dom().contains(h) implies (
        self.index().dom().contains(h) && new.index()[h] == self.index()[h]) || new.fresh(
            self,
            h,
        ) by {
            if mid.index().dom().contains(h) && new.index()[h] == mid.index()[h] {
                assert((self.index().dom().contains(h) && mid.index()[h] == self.index()[h])
                    || mid.fresh(self, h));
            } else {
                assert(new.fresh(mid, h));
                if self.bundle_map().dom().contains(new.index()[h].bundle) {
                    assert(mid.bundle_map().dom().contains(new.index()[h].bundle));
                }
            }
        }
        assert forall|h: hash::Hash| #[trigger] self.waits(h) implies new.waits(h) || new.fresh(
            self,
            h,
        ) by {
            if mid.waits(h) {
                assert(new.waits(h) || new.fresh(mid, h));
                if new.fresh(mid, h) && self.bundle_map().dom().contains(new.index()[h].bundle) {
                    assert(mid.bundle_map().dom().contains(new.index()[h].bundle));
                }
            } else {
                assert(mid.fresh(self, h));
                assert(new.index().dom().contains(h));
                if new.index()[h] != mid.index()[h] {
                    assert(new.fresh(mid, h));
                    if self.bundle_map().dom().contains(new.index()[h].bundle) {
                        assert(mid.bundle_map().dom().contains(new.index()[h].bundle));
                    }
                }
            }
        }
        assert forall|k: u32| #[trigger] self.bundle_map().dom().contains(k) implies new.bundle_map().dom().contains(
            k,
        ) && self.bundle_map()[k] == new.bundle_map()[k] by {
            assert(mid.bundle_map().dom().contains(k));
        }
        assert forall|k: BundleId| #[trigger] self.lists().dom().contains(k) implies new.lists().dom().contains(
            k,
        ) && self.lists()[k] == new.lists()[k] by {
            assert(mid.lists().dom().contains(k));
        }
        assert forall|k: BundleId| #[trigger] self.infos().dom().contains(k) implies new.infos().dom().contains(
            k,
        ) && self.infos()[k] == new.infos()[k] by {
            assert(mid.infos().dom().contains(k));
        }
        assert forall|k: BundleId| #[trigger] self.blobs().dom().contains(k) implies new.blobs().dom().contains(
            k,
        ) && self.blobs()[k] == new.blobs()[k] by {
            assert(mid.blobs().dom().contains(k));
        }
        assert forall|h: hash::Hash| self.index().dom().contains(h) implies #[trigger] new.index().dom().contains(
            h,
        ) by {
            assert(mid.index().dom().contains(h));
        }
    }

    /// Publishing an open bundle is writing and publishing; and every chunk that waited in
    /// the bundle is indexed afterwards, in the bundle's own id.
    pub proof fn lemma_published_carried(&self, new: &Self, mode: BundleMode)
        requires
            !self.bundle_map().dom().contains(self.next_id(mode)),
            self.published(new, mode, self.pending(mode).len() as int),
            self.pending(mode).len() <= MAX_CHUNKS,
        ensures
            self.carried(new),
            forall|h: hash::Hash|
                new.index().dom().contains(h) && new.index()[h].bundle != self.next_id(mode)
                    ==> self.index().dom().contains(h) && #[trigger] new.index()[h]
                    == self.index()[h],
            forall|h: hash::Hash| #[trigger]
                Self::listed(self.pending(mode), h) ==> new.index().dom().contains(h)
                    && new.index()[h].bundle == self.next_id(mode),
            !self.bundle_map().dom().contains(self.next_id(mode)),
    {
        let chunks = self.pending(mode);
        let bid = self.next_id(mode);
        let upto = chunks.len() as int;
        lemma_apply_chunks(self.index(), chunks, bid, upto);
        let rest = Self::other(mode);
        assert(new.pending(rest) == self.pending(rest));
        match mode {
            BundleMode::Data => {},
            BundleMode::Meta => {},
        }
        if upto == chunks.len() {
            assert forall|h: hash::Hash| #[trigger] Self::listed(chunks, h) implies new.index().dom().contains(
                h,
            ) && new.index()[h].bundle == bid by {
                let i = choose|i: int| 0 <= i < chunks.len() && (#[trigger] chunks[i]).hash == h;
                assert(new.index().dom().contains(chunks[i].hash));
            }
        }
        assert forall|h: hash::Hash| #[trigger] self.waits(h) implies new.waits(h) || new.fresh(
            self,
            h,
        ) by {
            if Self::listed(self.pending(rest), h) {
                assert(Self::listed(new.pending(rest), h));
            } else {
                assert(Self::listed(chunks, h));
                let i = choose|i: int| 0 <= i < chunks.len() && (#[trigger] chunks[i]).hash == h;
                if i < upto {
                    assert(new.index().dom().contains(chunks[i].hash));
                    assert(new.index()[h].bundle == bid);
                }
            }
        }
    }

    /// Flushing is writing and publishing; afterwards no chunk waits, and every chunk that
    /// waited is indexed in a bundle that was not mapped before.
    pub proof fn lemma_flushed_carried(&self, new: &Self)
        requires
            self.wf(),
            self.flushed(new),
        ensures
            self.carried(new),
            forall|h: hash::Hash| #[trigger] self.waits(h) ==> new.fresh(self, h),
            forall|h: hash::Hash| !#[trigger] new.waits(h),
    {
        self.lemma_wf();
        let mid = choose|mid: Self| #[trigger]
            self.step(&mid, BundleMode::Data) && mid.step(new, BundleMode::Meta);
        let data = BundleMode::Data;
        let meta = BundleMode::Meta;
        assert(self.pending(data).len() < MAX_CHUNKS);
        assert(self.pending(meta).len() < MAX_CHUNKS);
        if self.writer(data) is Some {
            self.lemma_published_carried(&mid, data);
        }
        assert(self.carried(&mid));
        assert(mid.pending(meta) == self.pending(meta));
        assert(mid.next_id(meta) == self.next_id(meta));
        assert(!mid.bundle_map().dom().contains(mid.next_id(meta)));
        if mid.writer(meta) is Some {
            mid.lemma_published_carried(new, meta);
        }
        assert(mid.carried(new));
        self.lemma_carried_twice(&mid, new);
        assert forall|h: hash::Hash| #[trigger] self.waits(h) implies new.fresh(self, h) by {
            if Self::listed(self.pending(meta), h) {
                assert(Self::listed(mid.pending(meta), h));
                assert(new.index()[h].bundle == mid.next_id(meta));
            } else {
                assert(Self::listed(self.pending(data), h));
                assert(mid.index().dom().contains(h) && mid.index()[h].bundle == self.next_id(data));
                assert(new.index().dom().contains(h));
                if new.index()[h].bundle != mid.next_id(meta) {
                    assert(new.index()[h] == mid.index()[h]);
                }
            }
        }
        assert forall|h: hash::Hash| !#[trigger] new.waits(h) by {
            assert(new.pending(data).len() == 0);
            assert(new.pending(meta).len() == 0);
        }
    }

    /// The other mode.
    pub open spec fn other(mode: BundleMode) -> BundleMode {
        match mode {
            BundleMode::Data => BundleMode::Meta,
            BundleMode::Meta => BundleMode::Data,
        }
    }

    /// Whether everything but index, bundle map, bundles, watermarks and open bundles is as
    /// in `other`.
    pub open spec fn same_settings(&self, other: &Self) -> bool {
        &&& self.config() == other.config()
        &&& self.keys() == other.keys()
        &&& self.lock_files() == other.lock_files()
        &&& self.is_dirty() == other.is_dirty()
        &&& self.time() == other.time()
        &&& self.saved_config() == other.saved_config()
        &&& self.saved_map() == other.saved_map()
        &&& self.saved_cache() == other.saved_cache()
    }

    /// Whether every hash that `other` indexes is indexed here too.
    pub open spec fn keeps_hashes_of(&self, other: &Self) -> bool {
        forall|h: hash::Hash|
            other.index().dom().contains(h) ==> #[trigger] self.index().dom().contains(h)
    }

    /// The index after the open bundle of `mode` was closed and its first `upto` chunks
    /// recorded under the bundle's id.
    pub open spec fn index_sealed(&self, mode: BundleMode, upto: int) -> Map<hash::Hash, Location> {
        apply_chunks(self.index(), self.pending(mode), self.next_id(mode), upto)
    }

    /// Whether `new` is `self` after the open bundle of `mode` was closed and published
    /// under its watermark id, with the first `upto` of its chunks recorded in the index:
    /// the bundle map and the bundle store have one bundle more, with the chunk list of the
    /// open bundle and a header that says how it was written; the watermark of `mode` has
    /// moved to the smallest free id above both watermarks.
    pub open spec fn published(&self, new: &Self, mode: BundleMode, upto: int) -> bool {
        let bid = self.next_id(mode);
        let cid = new.bundle_map()[bid];
        let info = new.infos()[cid];
        &&& self.writer(mode) matches Some(w)
        &&& new.bundle_map() == self.bundle_map().insert(bid, cid)
        &&& !self.lists().dom().contains(cid)
        &&& !self.infos().dom().contains(cid)
        &&& !self.blobs().dom().contains(cid)
        &&& new.lists() == self.lists().insert(cid, w.chunks())
        &&& new.infos() == self.infos().insert(cid, info)
        &&& new.blobs() == self.blobs().insert(cid, new.blobs()[cid])
        &&& info.id == cid
        &&& info.mode == mode
        &&& info.hash_method == w.hash_method()
        &&& info.compression == w.compression()
        &&& info.encryption == w.encryption()
        &&& info.timestamp == self.time()
        &&& crate::bundle::meta_wf(info, w.chunks())
        &&& crate::bundle::is_content_id(cid, info, w.chunks(), new.blobs()[cid])
        &&& w.compression() is None ==> crate::codec::opens_to(
            new.blobs()[cid],
            w.encryption(),
            w.data(),
        )
        &&& new.index() == self.index_sealed(mode, upto)
        &&& new.writer(mode) is None
        &&& new.writer(Self::other(mode)) == self.writer(Self::other(mode))
        &&& new.next_id(Self::other(mode)) == self.next_id(Self::other(mode))
        &&& is_next_free(
            self.bundle_map(),
            max_id(self.next_data(), self.next_meta()),
            new.next_id(mode),
        )
    }

    /// Whether `new` is `self` but for the open bundle of `mode`, which is gone.
    pub open spec fn discarded(&self, new: &Self, mode: BundleMode) -> bool {
        &&& new.index() == self.index()
        &&& new.bundle_map() == self.bundle_map()
        &&& new.infos() == self.infos()
        &&& new.lists() == self.lists()
        &&& new.blobs() == self.blobs()
        &&& new.next_data() == self.next_data()
        &&& new.next_meta() == self.next_meta()
        &&& new.writer(mode) is None
        &&& new.writer(Self::other(mode)) == self.writer(Self::other(mode))
    }

    /// Whether the index has an entry for `h` or room for one.
    pub closed spec fn index_takes(&self, h: hash::Hash) -> bool {
        self.index@.dom().contains(h) || self.index.has_room()
    }

    /// Whether closing the open bundle of `mode` can give the header `info` and the data
    /// blob `blob`, and a bundle with the content-id of that header is known, stored or
    /// mapped already.
    pub open spec fn collides(&self, mode: BundleMode, info: BundleInfo, blob: Seq<u8>) -> bool {
        &&& self.writer(mode) matches Some(w)
        &&& info.mode == mode
        &&& info.hash_method == w.hash_method()
        &&& info.compression == w.compression()
        &&& info.encryption == w.encryption()
        &&& info.timestamp == self.time()
        &&& crate::bundle::meta_wf(info, w.chunks())
        &&& info.encoded_size == blob.len()
        &&& crate::bundle::is_content_id(info.id, info, w.chunks(), blob)
        &&& w.compression() is None ==> crate::codec::opens_to(blob, w.encryption(), w.data())
        &&& self.infos().dom().contains(info.id) || self.blobs().dom().contains(info.id) || id_of(
            self.bundle_map(),
            info.id,
        ) is Some
    }

    /// What closing the open bundle of `mode` does, by outcome. `IdsExhausted`: nothing, and
    /// no id is free. `Compress`: the compressor failed and the open bundle is discarded.
    /// `BundleMapCorrupt`: a bundle with the same content-id exists; the open bundle is
    /// discarded. `IndexFull`: the bundle is published, but the index took only some of its
    /// chunks.
    pub open spec fn sealed(
        &self,
        new: &Self,
        mode: BundleMode,
        r: Result<(), RepositoryError>,
    ) -> bool {
        match r {
            Ok(()) => self.published(new, mode, self.pending(mode).len() as int),
            Err(RepositoryError::IdsExhausted) => new.same_storage(self) && ids_exhausted(
                self.bundle_map(),
                max_id(self.next_data(), self.next_meta()),
            ),
            Err(RepositoryError::Compress) => self.discarded(new, mode) && self.writer(
                mode,
            )->0.compression() is Some,
            Err(RepositoryError::BundleMapCorrupt) => self.discarded(new, mode) && exists|
                info: BundleInfo,
                blob: Seq<u8>,
            | #[trigger] self.collides(mode, info, blob),
            Err(RepositoryError::IndexFull) => exists|upto: int|
                0 <= upto < self.pending(mode).len() && #[trigger] self.published(new, mode, upto)
                    && !new.index_takes(self.pending(mode)[upto].hash),
            Err(_) => false,
        }
    }

    /// Closes the open bundle of `mode`: it is encoded, published under the watermark id of
    /// its mode, and its chunks are recorded in the index.
    fn finish_bundle(&mut self, mode: BundleMode) -> (r: Result<(), RepositoryError>)
        requires
            old(self).wf_full(),
            old(self).writer(Self::other(mode)) matches Some(w) ==> w.chunks().len() < MAX_CHUNKS,
            old(self).writer(mode) is Some,
        ensures
            old(self).wf() || !(r matches Err(RepositoryError::IdsExhausted)) ==> final(self).wf(),
            old(self).consistent() ==> final(self).consistent(),
            final(self).same_settings(old(self)),
            final(self).keeps_hashes_of(old(self)),
            old(self).sealed(final(self), mode, r),
            old(self).grown(final(self)),
            old(self).stores_known() ==> final(self).stores_known(),
    {
        let floor = if self.next_data_bundle >= self.next_meta_bundle {
            self.next_data_bundle
        } else {
            self.next_meta_bundle
        };
        let next = match free_above(&self.bundle_map, floor) {
            Some(n) => n,
            None => {
                return Err(RepositoryError::IdsExhausted);
            },
        };
        let bid = match mode {
            BundleMode::Data => self.next_data_bundle,
            BundleMode::Meta => self.next_meta_bundle,
        };
        let taken = match mode {
            BundleMode::Data => self.data_bundle.take(),
            BundleMode::Meta => self.meta_bundle.take(),
        };
        let writer = taken.unwrap();
        let bundle = match writer.finish(&self.codec, self.now) {
            Ok(b) => b,
            Err(e) => {
                proof {
                    if old(self).stores_known() {
                        assert forall|id: BundleId| #[trigger]
                            self.blobs().dom().contains(id) implies self.infos().dom().contains(
                            id,
                        ) by {
                            assert(old(self).blobs().dom().contains(id));
                        }
                    }
                }
                return Err(e);
            },
        };
        let cid = bundle.info.id;
        if self.bundles.knows(&cid) || self.bundles.stores(&cid) || self.bundle_map.find(
            &cid,
        ).is_some() {
            assert(old(self).collides(mode, bundle.info, bundle.data@));
            proof {
                if old(self).stores_known() {
                    assert forall|id: BundleId| #[trigger]
                        self.blobs().dom().contains(id) implies self.infos().dom().contains(id) by {
                        assert(old(self).blobs().dom().contains(id));
                    }
                }
            }
            return Err(RepositoryError::BundleMapCorrupt);
        }
        let chunks = crate::bundle::copy_chunks(&bundle.chunks);
        let ghost info = bundle.info;
        let ghost blob = bundle.data@;
        proof {
            old(self).bundles.lemma_views();
            if old(self).consistent() {
                lemma_grow_sound(
                    old(self).index(),
                    old(self).bundle_map(),
                    old(self).lists(),
                    bid,
                    cid,
                    chunks@,
                );
            }
        }
        self.bundles.add_bundle(bundle);
        self.bundle_map.set(bid, cid);
        match mode {
            BundleMode::Data => {
                self.next_data_bundle = next;
            },
            BundleMode::Meta => {
                self.next_meta_bundle = next;
            },
        }
        let done = self.index.set_chunks(&chunks, bid);
        proof {
            lemma_apply_chunks(old(self).index(), chunks@, bid, done as int);
            assert(self.lists()[self.bundle_map()[bid]] == chunks@);
            if old(self).consistent() {
                lemma_apply_sound(
                    old(self).index(),
                    self.bundle_map(),
                    self.lists(),
                    bid,
                    done as int,
                );
            }
            assert(self.infos()[cid] == info);
            assert(self.blobs()[cid] == blob);
            assert(old(self).published(self, mode, done as int));
        }
        if done < chunks.len() {
            assert(!self.index_takes(old(self).pending(mode)[done as int].hash));
            return Err(RepositoryError::IndexFull);
        }
        Ok(())
    }

    /// The rows of the bundle map in the order in which they are kept.
    pub closed spec fn bundle_rows(&self) -> Seq<MapEntry> {
        self.bundle_map.rows()
    }

    /// One step of flushing: the open bundle of `mode`, if there is one, is published with
    /// all its chunks recorded.
    pub open spec fn step(&self, new: &Self, mode: BundleMode) -> bool {
        if self.writer(mode) is Some {
            self.published(new, mode, self.pending(mode).len() as int)
        } else {
            new.same_storage(self)
        }
    }

    /// Whether `new` is `self` after both open bundles were published, data first.
    pub open spec fn flushed(&self, new: &Self) -> bool {
        exists|mid: Self| #[trigger] self.step(&mid, BundleMode::Data) && mid.step(
            new,
            BundleMode::Meta,
        )
    }

    /// Whether `new` is `self` after flushing failed with `r`: at the data bundle, or at the
    /// meta bundle after the data bundle was published.
    pub open spec fn flush_failed(&self, new: &Self, r: Result<(), RepositoryError>) -> bool {
        ||| self.writer(BundleMode::Data) is Some && self.sealed(new, BundleMode::Data, r)
        ||| exists|mid: Self| #[trigger]
            self.step(&mid, BundleMode::Data) && mid.writer(BundleMode::Meta) is Some
                && mid.sealed(new, BundleMode::Meta, r)
    }

    /// Closes and publishes both open bundles, then saves the bundle map and the cache of
    /// bundle headers.
    pub fn flush(&mut self) -> (r: Result<(), RepositoryError>)
        requires
            old(self).wf(),
        ensures
            final(self).wf(),
            old(self).consistent() ==> final(self).consistent(),
            final(self).keeps_hashes_of(old(self)),
            final(self).config() == old(self).config(),
            final(self).keys() == old(self).keys(),
            final(self).lock_files() == old(self).lock_files(),
            final(self).is_dirty() == old(self).is_dirty(),
            final(self).time() == old(self).time(),
            final(self).saved_config() == old(self).saved_config(),
            r is Ok ==> {
                &&& old(self).flushed(final(self))
                &&& rows_injective(final(self).saved_map())
                &&& rows_map(final(self).saved_map()) == final(self).bundle_map()
                &&& cache_matches(final(self).saved_cache(), final(self).infos(), final(self).lists())
            },
            r matches Err(e) ==> storage_failure(e),
            r is Err ==> {
                &&& old(self).flush_failed(final(self), r)
                &&& final(self).saved_map() == old(self).saved_map()
                &&& final(self).saved_cache() == old(self).saved_cache()
            },
            old(self).grown(final(self)),
            old(self).stores_known() ==> final(self).stores_known(),
            old(self).writer(BundleMode::Data) is None && old(self).writer(BundleMode::Meta) is None
                ==> r is Ok && final(self).same_storage(old(self)) && final(self).bundle_rows()
                == old(self).bundle_rows(),
    {
        if self.data_bundle.is_some() {
            match self.finish_bundle(BundleMode::Data) {
                Ok(()) => {},
                Err(e) => {
                    return Err(e);
                },
            }
        }
        let ghost mid = *self;
        assert(old(self).step(&mid, BundleMode::Data));
        if self.meta_bundle.is_some() {
            match self.finish_bundle(BundleMode::Meta) {
                Ok(()) => {},
                Err(e) => {
                    assert(mid.sealed(self, BundleMode::Meta, Err(e)));
                    return Err(e);
                },
            }
        }
        assert(mid.step(self, BundleMode::Meta));
        self.saved_map = self.bundle_map.bundles();
        self.save_cache();
        Ok(())
    }

    /// Saves the cache of bundle headers.
    pub fn save_cache(&mut self)
        requires
            old(self).wf(),
        ensures
            final(self).wf(),
            cache_matches(final(self).saved_cache(), final(self).infos(), final(self).lists()),
            final(self).same_storage(old(self)),
            final(self).config() == old(self).config(),
            final(self).keys() == old(self).keys(),
            final(self).lock_files() == old(self).lock_files(),
            final(self).is_dirty() == old(self).is_dirty(),
            final(self).time() == old(self).time(),
            final(self).saved_config() == old(self).saved_config(),
            final(self).saved_map() == old(self).saved_map(),
            final(self).remote_bundles() == old(self).remote_bundles(),
            final(self).bundle_rows() == old(self).bundle_rows(),
            final(self).index_filled() == old(self).index_filled(),
            final(self).bundle_headers() == old(self).bundle_headers(),
    {
        self.saved_cache = self.bundles.save_cache();
        proof {
            self.bundles.lemma_views();
            let cache = self.saved_cache@;
            let local = self.bundles.local_metas();
            assert forall|id: BundleId| self.infos().dom().contains(id) implies metas_list(
                cache,
                id,
            ) by {
                assert(self.bundles.infos().dom().contains(id));
                assert(metas_list(local, id));
                let k = choose|k: int| 0 <= k < local.len() && (#[trigger] local[k]).info.id == id;
                assert(cache[k].info.id == id);
            }
            assert forall|j: int, k: int| 0 <= j < k < cache.len() implies (#[trigger] cache[j]).info.id
                != (#[trigger] cache[k]).info.id by {
                assert(local[j].info.id != local[k].info.id);
            }
            assert forall|k: int| 0 <= k < cache.len() implies self.infos().contains_pair(
                (#[trigger] cache[k]).info.id,
                cache[k].info,
            ) && self.lists().contains_pair(cache[k].info.id, cache[k].chunks@) by {
                assert(local[k].wf());
            }
        }
    }

    /// Deletes the bundle behind the small id `id` from the bundle map, the cache and the
    /// remote. The index is left alone: it stays sound if no entry points into the bundle.
    pub fn delete_bundle(&mut self, id: u32) -> (r: Result<(), RepositoryError>)
        requires
            old(self).wf(),
        ensures
            final(self).wf(),
            final(self).same_settings(old(self)),
            final(self).index() == old(self).index(),
            final(self).next_data() == old(self).next_data(),
            final(self).next_meta() == old(self).next_meta(),
            final(self).writer(BundleMode::Data) == old(self).writer(BundleMode::Data),
            final(self).writer(BundleMode::Meta) == old(self).writer(BundleMode::Meta),
            final(self).bundle_map() == old(self).bundle_map().remove(id),
            old(self).stores_known() ==> final(self).stores_known(),
            if old(self).bundle_map().dom().contains(id) {
                let cid = old(self).bundle_map()[id];
                &&& final(self).infos() == old(self).infos().remove(cid)
                &&& final(self).lists() == old(self).lists().remove(cid)
                &&& final(self).blobs() == old(self).blobs().remove(cid)
                &&& r == (if old(self).infos().dom().contains(cid) {
                    Ok::<(), RepositoryError>(())
                } else {
                    Err::<(), RepositoryError>(RepositoryError::BundleMissing(cid))
                })
            } else {
                &&& final(self).infos() == old(self).infos()
                &&& final(self).lists() == old(self).lists()
                &&& final(self).blobs() == old(self).blobs()
                &&& r == Err::<(), RepositoryError>(RepositoryError::BundleIdMissing(id))
            },
            old(self).consistent() && (forall|h: hash::Hash| #[trigger]
                old(self).index().dom().contains(h) ==> old(self).index()[h].bundle != id)
                ==> final(self).consistent(),
    {
        proof {
            self.bundle_map.lemma_injective();
        }
        match self.bundle_map.remove(id) {
            Some(cid) => {
                proof {
                    if old(self).consistent() && (forall|h: hash::Hash| #[trigger]
                        old(self).index().dom().contains(h) ==> old(self).index()[h].bundle != id) {
                        lemma_shrink_sound(
                            old(self).index(),
                            old(self).bundle_map(),
                            old(self).lists(),
                            id,
                        );
                    }
                }
                let was = self.bundles.delete_bundle(&cid);
                proof {
                    if old(self).stores_known() {
                        assert forall|other: BundleId| #[trigger]
                            self.blobs().dom().contains(other) implies self.infos().dom().contains(
                            other,
                        ) by {
                            assert(self.blobs() == old(self).blobs().remove(cid));
                            assert(self.infos() == old(self).infos().remove(cid));
                            assert(other != cid);
                            assert(old(self).blobs().dom().contains(other));
                            assert(old(self).infos().dom().contains(other));
                        }
                    }
                }
                if was {
                    Ok(())
                } else {
                    Err(RepositoryError::BundleMissing(cid))
                }
            },
            None => {
                assert(old(self).bundle_map().remove(id) =~= old(self).bundle_map());
                proof {
                    if old(self).stores_known() {
                        assert forall|other: BundleId| #[trigger]
                            self.blobs().dom().contains(other) implies self.infos().dom().contains(
                            other,
                        ) by {
                            assert(old(self).blobs().dom().contains(other));
                        }
                    }
                }
                Err(RepositoryError::BundleIdMissing(id))
            },
        }
    }

    /// Whether `new` is `self` after the known bundle `id` of mode `mode` was given a small
    /// id and the first `upto` of its chunks were recorded in the index. A bundle that the
    /// bundle map holds keeps its small id; another gets the watermark id of its mode, and
    /// the watermark moves on.
    pub open spec fn adopted(&self, new: &Self, id: BundleId, mode: BundleMode, upto: int) -> bool {
        let chunks = self.lists()[id];
        &&& new.infos() == self.infos()
        &&& new.lists() == self.lists()
        &&& new.blobs() == self.blobs()
        &&& new.writer(BundleMode::Data) == self.writer(BundleMode::Data)
        &&& new.writer(BundleMode::Meta) == self.writer(BundleMode::Meta)
        &&& new.next_id(Self::other(mode)) == self.next_id(Self::other(mode))
        &&& match id_of(self.bundle_map(), id) {
            Some(small) => {
                &&& new.bundle_map() == self.bundle_map()
                &&& new.index() == apply_chunks(self.index(), chunks, small, upto)
                &&& new.next_id(mode) == self.next_id(mode)
            },
            None => {
                &&& new.bundle_map() == self.bundle_map().insert(self.next_id(mode), id)
                &&& new.index() == apply_chunks(self.index(), chunks, self.next_id(mode), upto)
                &&& is_next_free(
                    self.bundle_map(),
                    max_id(self.next_data(), self.next_meta()),
                    new.next_id(mode),
                )
            },
        }
    }

    /// Takes up a bundle that appeared on the remote: it gets a small id, and all its chunks
    /// are recorded in the index.
    pub fn add_new_remote_bundle(&mut self, bundle: BundleInfo) -> (r: Result<(), RepositoryError>)
        requires
            old(self).wf(),
        ensures
            final(self).wf(),
            old(self).consistent() ==> final(self).consistent(),
            final(self).same_settings(old(self)),
            final(self).keeps_hashes_of(old(self)),
            final(self).remote_bundles() == old(self).remote_bundles(),
            !old(self).lists().dom().contains(bundle.id) ==> r == Err::<(), RepositoryError>(
                RepositoryError::BundleMissing(bundle.id),
            ),
            old(self).lists().dom().contains(bundle.id) && id_of(old(self).bundle_map(), bundle.id)
                is None && ids_exhausted(
                old(self).bundle_map(),
                max_id(old(self).next_data(), old(self).next_meta()),
            ) ==> r == Err::<(), RepositoryError>(RepositoryError::IdsExhausted),
            final(self).index_filled() <= old(self).index_filled() + (if old(self).lists().dom().contains(bundle.id) {
                old(self).lists()[bundle.id].len() as int
            } else {
                0
            }),
            match r {
                Ok(()) => old(self).lists().dom().contains(bundle.id) && old(self).adopted(
                    final(self),
                    bundle.id,
                    bundle.mode,
                    old(self).lists()[bundle.id].len() as int,
                ),
                Err(RepositoryError::BundleMissing(id)) => id == bundle.id && !old(self).lists().dom().contains(id) && final(self).same_storage(old(self)),
                Err(RepositoryError::IdsExhausted) => final(self).same_storage(old(self)) && id_of(
                    old(self).bundle_map(),
                    bundle.id,
                ) is None && ids_exhausted(
                    old(self).bundle_map(),
                    max_id(old(self).next_data(), old(self).next_meta()),
                ),
                Err(RepositoryError::IndexFull) => old(self).lists().dom().contains(bundle.id)
                    && exists|upto: int|
                    0 <= upto < old(self).lists()[bundle.id].len() && #[trigger] old(self).adopted(
                        final(self),
                        bundle.id,
                        bundle.mode,
                        upto,
                    ) && !final(self).index_takes(old(self).lists()[bundle.id][upto].hash),
                Err(_) => false,
            },
    {
        proof {
            self.bundles.lemma_views();
            self.bundle_map.lemma_injective();
        }
        let chunks = match self.bundles.get_chunk_list(&bundle.id) {
            Some(c) => c,
            None => {
                return Err(RepositoryError::BundleMissing(bundle.id));
            },
        };
        let bid = match self.bundle_map.find(&bundle.id) {
            Some(small) => small,
            None => {
                let next = match self.next_free_bundle_id() {
                    Some(n) => n,
                    None => {
                        return Err(RepositoryError::IdsExhausted);
                    },
                };
                let bid = match bundle.mode {
                    BundleMode::Data => self.next_data_bundle,
                    BundleMode::Meta => self.next_meta_bundle,
                };
                proof {
                    if old(self).consistent() {
                        lemma_map_grow_sound(
                            old(self).index(),
                            old(self).bundle_map(),
                            old(self).lists(),
                            bid,
                            bundle.id,
                        );
                    }
                }
                self.bundle_map.set(bid, bundle.id);
                match bundle.mode {
                    BundleMode::Data => {
                        self.next_data_bundle = next;
                    },
                    BundleMode::Meta => {
                        self.next_meta_bundle = next;
                    },
                }
                bid
            },
        };
        let ghost before = self.index@;
        let done = self.index.set_chunks(&chunks, bid);
        proof {
            lemma_apply_chunks(before, chunks@, bid, done as int);
            if old(self).consistent() {
                lemma_apply_sound(before, self.bundle_map(), self.lists(), bid, done as int);
            }
            assert(old(self).adopted(self, bundle.id, bundle.mode, done as int));
        }
        if done < chunks.len() {
            assert(!self.index_takes(old(self).lists()[bundle.id][done as int].hash));
            return Err(RepositoryError::IndexFull);
        }
        Ok(())
    }

    /// Forgets a bundle that is gone from the remote: its header leaves the cache, its small
    /// id the bundle map, and every entry that points into it the index.
    pub fn remove_gone_remote_bundle(&mut self, bundle: BundleInfo) -> (r: Result<
        (),
        RepositoryError,
    >)
        requires
            old(self).wf(),
        ensures
            r is Ok,
            final(self).wf(),
            old(self).consistent() ==> final(self).consistent(),
            final(self).same_settings(old(self)),
            final(self).blobs() == old(self).blobs(),
            final(self).remote_bundles() == old(self).remote_bundles(),
            final(self).next_data() == old(self).next_data(),
            final(self).next_meta() == old(self).next_meta(),
            final(self).writer(BundleMode::Data) == old(self).writer(BundleMode::Data),
            final(self).writer(BundleMode::Meta) == old(self).writer(BundleMode::Meta),
            final(self).index_filled() == old(self).index_filled(),
            match id_of(old(self).bundle_map(), bundle.id) {
                Some(small) => {
                    &&& final(self).bundle_map() == old(self).bundle_map().remove(small)
                    &&& final(self).index() == without_bundle(old(self).index(), small)
                    &&& final(self).infos() == old(self).infos().remove(bundle.id)
                    &&& final(self).lists() == old(self).lists().remove(bundle.id)
                },
                None => final(self).same_storage(old(self)),
            },
    {
        proof {
            self.bundle_map.lemma_injective();
        }
        match self.bundle_map.find(&bundle.id) {
            Some(small) => {
                self.bundles.delete_local_bundle(&bundle.id);
                self.index.remove_bundle(small);
                self.bundle_map.remove(small);
                proof {
                    if old(self).consistent() {
                        let idx = without_bundle(old(self).index(), small);
                        assert forall|h: hash::Hash| #[trigger] idx.dom().contains(h) implies entry_ok(
                            old(self).bundle_map(),
                            old(self).lists(),
                            h,
                            idx[h],
                        ) by {
                            assert(old(self).index().dom().contains(h));
                        }
                        lemma_shrink_sound(idx, old(self).bundle_map(), old(self).lists(), small);
                    }
                }
                Ok(())
            },
            None => Ok(()),
        }
    }

    /// Whether every chunk of every bundle that the bundle map holds is indexed.
    pub open spec fn index_complete(&self) -> bool {
        forall|id: u32, i: int|
            self.bundle_map().dom().contains(id) && self.lists().dom().contains(
                self.bundle_map()[id],
            ) && 0 <= i < self.lists()[self.bundle_map()[id]].len() ==> self.index().dom().contains(
                (#[trigger] self.lists()[self.bundle_map()[id]][i]).hash,
            )
    }

    /// Builds the index anew from the chunk lists of the bundles that the bundle map holds,
    /// row by row. Whatever comes of it, the index is sound afterwards. It ends at the first
    /// row whose bundle is not known, with `BundleMissing`, or at the first chunk that the
    /// index has no room for, with `IndexFull`. The table keeps its size, so where every
    /// bundle is known and the entries fit the table as it is, it ends well; and after it
    /// has ended well they fit, so that it ends well again.
    pub fn rebuild_index(&mut self) -> (r: Result<(), RepositoryError>)
        requires
            old(self).wf(),
        ensures
            final(self).wf(),
            final(self).consistent(),
            final(self).same_settings(old(self)),
            final(self).bundle_map() == old(self).bundle_map(),
            final(self).bundle_rows() == old(self).bundle_rows(),
            final(self).infos() == old(self).infos(),
            final(self).lists() == old(self).lists(),
            final(self).blobs() == old(self).blobs(),
            final(self).next_data() == old(self).next_data(),
            final(self).next_meta() == old(self).next_meta(),
            final(self).writer(BundleMode::Data) == old(self).writer(BundleMode::Data),
            final(self).writer(BundleMode::Meta) == old(self).writer(BundleMode::Meta),
            match r {
                Ok(()) => {
                    &&& final(self).index_complete()
                    &&& forall|id: u32| #[trigger]
                        old(self).bundle_map().dom().contains(id) ==> old(self).lists().dom().contains(old(self).bundle_map()[id])
                    &&& final(self).index() == rebuilt(
                        old(self).bundle_rows(),
                        old(self).lists(),
                        old(self).bundle_rows().len() as int,
                    )
                },
                Err(RepositoryError::BundleMissing(id)) => id_of(old(self).bundle_map(), id) is Some
                    && !old(self).lists().dom().contains(id) && exists|k: int| #[trigger]
                    old(self).unlisted_at(final(self), id, k),
                Err(RepositoryError::IndexFull) => old(self).rebuild_stuck(final(self)),
                Err(_) => false,
            },
            old(self).all_listed() && row_load(
                old(self).bundle_rows(),
                old(self).lists(),
                old(self).bundle_rows().len() as int,
            ) < crate::index::ROOMY ==> r is Ok,
            r is Ok ==> final(self).index_filled() <= row_load(
                old(self).bundle_rows(),
                old(self).lists(),
                old(self).bundle_rows().len() as int,
            ),
            old(self).all_listed() && old(self).rebuild_fits() ==> r is Ok,
            r is Ok ==> final(self).rebuild_fits(),
            final(self).index_capacity() >= old(self).index_capacity(),
    {
        proof {
            self.bundle_map.lemma_injective();
            self.bundles.lemma_views();
        }
        self.index.clear();
        let rows = self.bundle_map.bundles();
        let mut k: usize = 0;
        while k < rows.len()
            invariant
                self.wf(),
                k <= rows@.len(),
                rows@ == self.bundle_map.rows(),
                rows_injective(rows@),
                self.bundle_map@ == rows_map(rows@),
                self.bundle_map == old(self).bundle_map,
                self.bundles == old(self).bundles,
                self.same_settings(old(self)),
                self.next_data_bundle == old(self).next_data_bundle,
                self.next_meta_bundle == old(self).next_meta_bundle,
                self.data_bundle == old(self).data_bundle,
                self.meta_bundle == old(self).meta_bundle,
                self.index@ == rebuilt(rows@, self.bundles.lists(), k as int),
                self.index.spec_tombs() <= 0,
                self.index.spec_capacity() >= old(self).index.spec_capacity(),
                self.index.spec_filled() <= row_load(rows@, self.bundles.lists(), k as int),
                index_sound(self.index@, self.bundle_map@, self.bundles.lists()),
                forall|j: int|
                    0 <= j < k ==> self.bundles.lists().dom().contains((#[trigger] rows@[j]).bundle),
                forall|j: int| 0 <= j < k ==> #[trigger] self.row_indexed(rows@, j),
                forall|id: BundleId| #[trigger]
                    self.bundles.lists().dom().contains(id) ==> self.bundles.lists()[id].len()
                        <= MAX_CHUNKS,
            decreases rows@.len() - k,
        {
            let row = rows[k];
            proof {
                assert(rows_map(rows@).dom().contains(row.id));
                let c = choose|c: int| 0 <= c < rows@.len() && (#[trigger] rows@[c]).id == row.id;
                if c < k {
                    assert(rows@[c].id != rows@[k as int].id);
                }
                if (k as int) < c {
                    assert(rows@[k as int].id != rows@[c].id);
                }
                assert(self.bundle_map@[row.id] == row.bundle);
            }
            let chunks = match self.bundles.get_chunk_list(&row.bundle) {
                Some(c) => c,
                None => {
                    assert(old(self).bundle_map().contains_pair(row.id, row.bundle));
                    assert(!old(self).lists().dom().contains(row.bundle));
                    assert(id_of(old(self).bundle_map(), row.bundle) is Some);
                    assert(!old(self).all_listed());
                    assert(old(self).listed_upto(k as int));
                    assert(old(self).unlisted_at(self, row.bundle, k as int));
                    return Err(RepositoryError::BundleMissing(row.bundle));
                },
            };
            let ghost before = self.index@;
            let ghost was = *self;
            let done = self.index.set_chunks(&chunks, row.id);
            proof {
                lemma_apply_sound(
                    before,
                    self.bundle_map@,
                    self.bundles.lists(),
                    row.id,
                    done as int,
                );
                lemma_apply_chunks(before, chunks@, row.id, done as int);
                lemma_row_load(rows@, self.bundles.lists(), k + 1, rows@.len() as int);
            }
            if done < chunks.len() {
                proof {
                    if self.index.spec_filled() < crate::index::ROOMY {
                        self.index.lemma_roomy();
                    }
                    assert(old(self).stuck_at(self, k as int, done as int));
                    let lists = self.bundles.lists();
                    let full = rebuilt(rows@, lists, rows@.len() as int);
                    let next = rebuilt(rows@, lists, k + 1);
                    let h = chunks@[done as int].hash;
                    self.index.lemma_load();
                    lemma_rebuilt_dom(rows@, lists, k as int, k as int);
                    lemma_rebuilt_dom(rows@, lists, k + 1, rows@.len() as int);
                    lemma_rebuilt_dom(rows@, lists, rows@.len() as int, rows@.len() as int);
                    lemma_apply_dom(before, chunks@, row.id, done as int, chunks@.len() as int);
                    assert(next == apply_chunks(before, chunks@, row.id, chunks@.len() as int));
                    assert(full.dom().contains(h));
                    assert(self.index@.dom().subset_of(full.dom().remove(h)));
                    vstd::set_lib::lemma_len_subset(self.index@.dom(), full.dom().remove(h));
                    assert(self.index@.dom().len() < full.dom().len());
                    assert(!old(self).rebuild_fits());
                }
                return Err(RepositoryError::IndexFull);
            }
            proof {
                assert forall|j: int| 0 <= j < k + 1 implies #[trigger] self.row_indexed(
                    rows@,
                    j,
                ) by {
                    let list = self.lists()[rows@[j].bundle];
                    assert forall|i: int| 0 <= i < list.len() implies self.index().dom().contains(
                        (#[trigger] list[i]).hash,
                    ) by {
                        if j < k {
                            assert(was.row_indexed(rows@, j));
                            assert(was.lists()[rows@[j].bundle] == list);
                            assert(was.index() == before);
                            assert(was.index().dom().contains(
                                was.lists()[rows@[j].bundle][i].hash,
                            ));
                            assert(before.dom().contains(list[i].hash));
                        } else {
                            assert(list == chunks@);
                            assert(self.index@.dom().contains(chunks@[i].hash));
                        }
                    }
                }
            }
            k += 1;
        }
        proof {
            self.index.lemma_load();
            assert forall|id: u32| #[trigger]
                old(self).bundle_map().dom().contains(id) implies old(self).lists().dom().contains(
                old(self).bundle_map()[id],
            ) by {
                let c = choose|c: int| 0 <= c < rows@.len() && (#[trigger] rows@[c]).id == id;
                assert(self.bundles.lists().dom().contains(rows@[c].bundle));
            }
            assert forall|id: u32, i: int|
                self.bundle_map().dom().contains(id) && self.lists().dom().contains(
                    self.bundle_map()[id],
                ) && 0 <= i < self.lists()[self.bundle_map()[id]].len() implies self.index().dom().contains(
                (#[trigger] self.lists()[self.bundle_map()[id]][i]).hash,
            ) by {
                let c = choose|c: int| 0 <= c < rows@.len() && (#[trigger] rows@[c]).id == id;
                assert(self.row_indexed(rows@, c));
                let d = choose|d: int| 0 <= d < rows@.len() && (#[trigger] rows@[d]).id == rows@[c].id;
                if c < d {
                    assert(rows@[c].id != rows@[d].id);
                }
                if d < c {
                    assert(rows@[d].id != rows@[c].id);
                }
            }
        }
        Ok(())
    }

    /// Whether the bundle store knows the chunk list of every bundle that the bundle map
    /// holds.
    pub open spec fn all_listed(&self) -> bool {
        forall|id: u32| #[trigger]
            self.bundle_map().dom().contains(id) ==> self.lists().dom().contains(
                self.bundle_map()[id],
            )
    }

    /// Whether the index that rebuilding gives fits the table as it is: its entries fill
    /// three quarters of the slots at most.
    pub open spec fn rebuild_fits(&self) -> bool {
        rebuilt(self.bundle_rows(), self.lists(), self.bundle_rows().len() as int).dom().len()
            * 4 <= self.index_capacity() * 3
    }

    /// Whether the bundle store knows the chunk list of the bundles in the first `k` rows of
    /// the bundle map.
    pub open spec fn listed_upto(&self, k: int) -> bool {
        forall|j: int|
            0 <= j < k ==> self.lists().dom().contains((#[trigger] self.bundle_rows()[j]).bundle)
    }

    /// Whether rebuilding the index of `self` ended at row `k`, the first whose bundle, `id`,
    /// the bundle store does not know, and left `new` with the index rebuilt from the rows
    /// before it.
    pub open spec fn unlisted_at(&self, new: &Self, id: BundleId, k: int) -> bool {
        let rows = self.bundle_rows();
        &&& 0 <= k < rows.len()
        &&& rows[k].bundle == id
        &&& self.listed_upto(k)
        &&& new.index() == rebuilt(rows, self.lists(), k)
    }

    /// Whether `new` is `self` with the index rebuilt up to chunk `i` of the bundle in row
    /// `k`, whose hash the index could not take; the rows before it were all known.
    pub open spec fn stuck_at(&self, new: &Self, k: int, i: int) -> bool {
        let rows = self.bundle_rows();
        let list = self.lists()[rows[k].bundle];
        &&& 0 <= k < rows.len()
        &&& self.listed_upto(k)
        &&& self.lists().dom().contains(rows[k].bundle)
        &&& 0 <= i < list.len()
        &&& new.index() == apply_chunks(rebuilt(rows, self.lists(), k), list, rows[k].id, i)
        &&& !new.index_takes(list[i].hash)
        &&& row_load(rows, self.lists(), rows.len() as int) >= crate::index::ROOMY
    }

    /// Whether rebuilding the index of `self` got stuck, leaving `new`: the index took the
    /// chunks of some rows and some of the next, and had no room for the chunk after them.
    pub open spec fn rebuild_stuck(&self, new: &Self) -> bool {
        exists|k: int, i: int| #[trigger] self.stuck_at(new, k, i)
    }

    /// Whether every chunk of the bundle in row `j` is indexed.
    pub open spec fn row_indexed(&self, rows: Seq<MapEntry>, j: int) -> bool {
        forall|i: int|
            0 <= i < self.lists()[rows[j].bundle].len() ==> self.index().dom().contains(
                (#[trigger] self.lists()[rows[j].bundle][i]).hash,
            )
    }

    /// The bundles on the remote in the order in which they are kept.
    pub closed spec fn remote_bundles(&self) -> Seq<StoredBundle> {
        self.bundles.remote_bundles()
    }

    /// Whether every id in use, the two watermarks too, lies below `b`.
    pub open spec fn ids_under(&self, b: int) -> bool {
        &&& self.next_data() < b
        &&& self.next_meta() < b
        &&& forall|x: u32| #[trigger] self.bundle_map().dom().contains(x) ==> x < b
    }

    /// Whether the index holds the fingerprint of every chunk of the known bundle `id`.
    pub open spec fn bundle_indexed(&self, id: BundleId) -> bool {
        forall|i: int|
            0 <= i < self.lists()[id].len() ==> self.index().dom().contains(
                (#[trigger] self.lists()[id][i]).hash,
            )
    }

    /// Taking up a bundle uses at most one id more.
    proof fn lemma_adopted_ids(&self, new: &Self, id: BundleId, mode: BundleMode, upto: int, b: int)
        requires
            self.ids_under(b),
            self.adopted(new, id, mode, upto),
        ensures
            new.ids_under(b + 1),
    {
        if id_of(self.bundle_map(), id) is None {
            lemma_next_free_bound(
                self.bundle_map(),
                max_id(self.next_data(), self.next_meta()),
                new.next_id(mode),
                b,
            );
            match mode {
                BundleMode::Data => {},
                BundleMode::Meta => {},
            }
        } else {
            match mode {
                BundleMode::Data => {},
                BundleMode::Meta => {},
            }
        }
    }

    /// Takes up each of `new`, in order, as `add_new_remote_bundle` does.
    fn adopt_all(&mut self, new: &Vec<BundleInfo>, Ghost(b): Ghost<int>) -> (r: Result<
        (),
        RepositoryError,
    >)
        requires
            old(self).wf(),
            forall|k: int|
                0 <= k < new@.len() ==> old(self).lists().dom().contains((#[trigger] new@[k]).id)
                    && old(self).infos()[new@[k].id] == new@[k],
        ensures
            final(self).index_filled() <= old(self).index_filled() + headers_load(
                new@,
                new@.len() as int,
            ),
            old(self).index_filled() + headers_load(new@, new@.len() as int) < crate::index::ROOMY
                ==> !(r matches Err(RepositoryError::IndexFull)),
            old(self).ids_under(b) && b + new@.len() < u32::MAX ==> final(self).ids_under(
                b + new@.len(),
            ) && !(r matches Err(RepositoryError::IdsExhausted)),
            r is Ok ==> forall|k: int|
                0 <= k < new@.len() ==> final(self).bundle_indexed((#[trigger] new@[k]).id),
            final(self).wf(),
            old(self).consistent() ==> final(self).consistent(),
            final(self).same_settings(old(self)),
            final(self).keeps_hashes_of(old(self)),
            final(self).infos() == old(self).infos(),
            final(self).lists() == old(self).lists(),
            final(self).blobs() == old(self).blobs(),
            final(self).remote_bundles() == old(self).remote_bundles(),
            final(self).writer(BundleMode::Data) == old(self).writer(BundleMode::Data),
            final(self).writer(BundleMode::Meta) == old(self).writer(BundleMode::Meta),
            within(old(self).bundle_map(), final(self).bundle_map()),
            forall|small: u32| #[trigger]
                final(self).bundle_map().dom().contains(small) ==> old(self).bundle_map().dom().contains(small) || header_ids(new@).contains(
                    final(self).bundle_map()[small],
                ),
            r is Ok ==> forall|k: int|
                0 <= k < new@.len() ==> id_of(final(self).bundle_map(), (#[trigger] new@[k]).id)
                    is Some,
            r matches Err(e) ==> e == RepositoryError::IdsExhausted || e
                == RepositoryError::IndexFull,
            new@.len() == 0 ==> final(self).same_storage(old(self)) && final(self).bundle_rows()
                == old(self).bundle_rows() && r is Ok && final(self).bundle_headers() == old(self).bundle_headers(),
    {
        let mut k: usize = 0;
        while k < new.len()
            invariant
                k <= new@.len(),
                k == 0 ==> self.same_storage(old(self)) && self.bundle_rows() == old(self).bundle_rows()
                    && self.bundle_headers() == old(self).bundle_headers(),
                self.wf(),
                old(self).consistent() ==> self.consistent(),
                self.same_settings(old(self)),
                self.keeps_hashes_of(old(self)),
                self.infos() == old(self).infos(),
                self.lists() == old(self).lists(),
                self.blobs() == old(self).blobs(),
                self.remote_bundles() == old(self).remote_bundles(),
                self.writer(BundleMode::Data) == old(self).writer(BundleMode::Data),
                self.writer(BundleMode::Meta) == old(self).writer(BundleMode::Meta),
                within(old(self).bundle_map(), self.bundle_map()),
                forall|small: u32| #[trigger]
                    self.bundle_map().dom().contains(small) ==> old(self).bundle_map().dom().contains(
                        small,
                    ) || header_ids(new@).contains(self.bundle_map()[small]),
                forall|j: int|
                    0 <= j < new@.len() ==> self.lists().dom().contains((#[trigger] new@[j]).id)
                        && self.infos()[new@[j].id] == new@[j],
                forall|j: int|
                    0 <= j < k ==> id_of(self.bundle_map(), (#[trigger] new@[j]).id) is Some,
                self.index_filled() <= old(self).index_filled() + headers_load(new@, k as int),
                old(self).ids_under(b) && b + new@.len() < u32::MAX ==> self.ids_under(b + k),
                forall|j: int| 0 <= j < k ==> self.bundle_indexed((#[trigger] new@[j]).id),
            decreases new@.len() - k,
        {
            let ghost before = *self;
            let bundle = new[k];
            proof {
                before.lemma_wf();
                assert(before.lists().dom().contains(new@[k as int].id));
                assert(crate::bundle::meta_wf(
                    before.infos()[bundle.id],
                    before.lists()[bundle.id],
                ));
                lemma_headers_load(new@, new@, k + 1, new@.len() as int);
            }
            match self.add_new_remote_bundle(bundle) {
                Ok(()) => {},
                Err(e) => {
                    proof {
                        Self::lemma_adopted_map(&before, self, bundle, new@, k as int);
                        if e is IndexFull && self.index.spec_filled() < crate::index::ROOMY {
                            self.index.lemma_roomy();
                        }
                        if old(self).ids_under(b) && b + new@.len() < u32::MAX {
                            if e is IdsExhausted {
                                assert(before.bundle_map().dom().contains(u32::MAX));
                            }
                            if e is IndexFull {
                                let upto = choose|upto: int|
                                    0 <= upto < before.lists()[bundle.id].len()
                                        && #[trigger] before.adopted(
                                        self,
                                        bundle.id,
                                        bundle.mode,
                                        upto,
                                    ) && !self.index_takes(before.lists()[bundle.id][upto].hash);
                                before.lemma_adopted_ids(self, bundle.id, bundle.mode, upto, b + k);
                            }
                        }
                    }
                    return Err(e);
                },
            }
            proof {
                if old(self).ids_under(b) && b + new@.len() < u32::MAX {
                    before.lemma_adopted_ids(
                        self,
                        bundle.id,
                        bundle.mode,
                        before.lists()[bundle.id].len() as int,
                        b + k,
                    );
                }
                let small = match id_of(before.bundle_map(), bundle.id) {
                    Some(small) => small,
                    None => before.next_id(bundle.mode),
                };
                lemma_apply_chunks(
                    before.index(),
                    before.lists()[bundle.id],
                    small,
                    before.lists()[bundle.id].len() as int,
                );
                assert(self.bundle_indexed(bundle.id));
                assert forall|j: int| 0 <= j < k + 1 implies self.bundle_indexed(
                    (#[trigger] new@[j]).id,
                ) by {
                    if j < k {
                        assert(before.bundle_indexed(new@[j].id));
                    }
                }
                Self::lemma_adopted_map(&before, self, bundle, new@, k as int);
                assert forall|j: int| 0 <= j < k + 1 implies id_of(
                    self.bundle_map(),
                    (#[trigger] new@[j]).id,
                ) is Some by {
                    if j < k {
                        let small = id_of(before.bundle_map(), new@[j].id)->0;
                        assert(before.bundle_map().contains_pair(small, new@[j].id));
                        assert(self.bundle_map().contains_pair(small, new@[j].id));
                    }
                }
            }
            k += 1;
        }
        Ok(())
    }

    /// What taking up a bundle does to the bundle map: it grows by at most the bundle.
    proof fn lemma_adopted_map(
        before: &Self,
        after: &Self,
        bundle: BundleInfo,
        new: Seq<BundleInfo>,
        k: int,
    )
        requires
            0 <= k < new.len(),
            new[k] == bundle,
            before.wf(),
            after.same_storage(before) || (before.lists().dom().contains(bundle.id) && exists|
                upto: int,
            | #[trigger] before.adopted(after, bundle.id, bundle.mode, upto)),
        ensures
            within(before.bundle_map(), after.bundle_map()),
            forall|small: u32| #[trigger]
                after.bundle_map().dom().contains(small) ==> before.bundle_map().dom().contains(
                    small,
                ) || header_ids(new).contains(after.bundle_map()[small]),
            !after.same_storage(before) ==> id_of(after.bundle_map(), bundle.id) is Some,
    {
        before.lemma_wf();
        if !after.same_storage(before) {
            let upto = choose|upto: int| #[trigger]
                before.adopted(after, bundle.id, bundle.mode, upto);
            match id_of(before.bundle_map(), bundle.id) {
                Some(small) => {
                    assert(after.bundle_map().contains_pair(small, bundle.id));
                },
                None => {
                    assert(after.bundle_map().contains_pair(before.next_id(bundle.mode), bundle.id));
                    assert(header_ids(new).contains(new[k].id)) by {
                        assert(header_ids(new)[k] == new[k].id);
                    }
                },
            }
        }
    }

    /// Forgets each of `gone`, in order, as `remove_gone_remote_bundle` does.
    fn forget_all(&mut self, gone: &Vec<BundleInfo>)
        requires
            old(self).wf(),
        ensures
            final(self).wf(),
            old(self).consistent() ==> final(self).consistent(),
            final(self).same_settings(old(self)),
            final(self).blobs() == old(self).blobs(),
            final(self).remote_bundles() == old(self).remote_bundles(),
            final(self).next_data() == old(self).next_data(),
            final(self).next_meta() == old(self).next_meta(),
            final(self).writer(BundleMode::Data) == old(self).writer(BundleMode::Data),
            final(self).writer(BundleMode::Meta) == old(self).writer(BundleMode::Meta),
            final(self).index_filled() == old(self).index_filled(),
            within(final(self).bundle_map(), old(self).bundle_map()),
            within(final(self).lists(), old(self).lists()),
            within(final(self).infos(), old(self).infos()),
            forall|small: u32| #[trigger]
                old(self).bundle_map().dom().contains(small) ==> (final(self).bundle_map().dom().contains(small) <==> !header_ids(gone@).contains(
                    old(self).bundle_map()[small],
                )),
            gone@.len() == 0 ==> final(self).same_storage(old(self)) && final(self).bundle_rows()
                == old(self).bundle_rows() && final(self).bundle_headers() == old(self).bundle_headers(),
            forall|id: BundleId| #[trigger]
                old(self).lists().dom().contains(id) && !header_ids(gone@).contains(id) ==> final(self).lists().contains_pair(id, old(self).lists()[id]) && final(self).infos().contains_pair(id, old(self).infos()[id]),
    {
        proof {
            self.lemma_wf();
        }
        let mut k: usize = 0;
        while k < gone.len()
            invariant
                k <= gone@.len(),
                forall|id: BundleId| #[trigger]
                    old(self).lists().dom().contains(id) && !header_ids(
                        gone@.subrange(0, k as int),
                    ).contains(id) ==> self.lists().contains_pair(id, old(self).lists()[id])
                        && self.infos().contains_pair(id, old(self).infos()[id]),
                k == 0 ==> self.same_storage(old(self)) && self.bundle_rows() == old(self).bundle_rows()
                    && self.bundle_headers() == old(self).bundle_headers(),
                self.wf(),
                old(self).wf(),
                old(self).consistent() ==> self.consistent(),
                self.same_settings(old(self)),
                self.blobs() == old(self).blobs(),
                self.remote_bundles() == old(self).remote_bundles(),
                self.next_data() == old(self).next_data(),
                self.next_meta() == old(self).next_meta(),
                self.writer(BundleMode::Data) == old(self).writer(BundleMode::Data),
                self.writer(BundleMode::Meta) == old(self).writer(BundleMode::Meta),
                self.index_filled() == old(self).index_filled(),
                within(self.bundle_map(), old(self).bundle_map()),
                within(self.lists(), old(self).lists()),
                within(self.infos(), old(self).infos()),
                forall|small: u32| #[trigger]
                    old(self).bundle_map().dom().contains(small) ==> (self.bundle_map().dom().contains(
                        small,
                    ) <==> !header_ids(gone@.subrange(0, k as int)).contains(
                        old(self).bundle_map()[small],
                    )),
            decreases gone@.len() - k,
        {
            let ghost before = *self;
            let bundle = gone[k];
            let _ = self.remove_gone_remote_bundle(bundle);
            proof {
                match id_of(before.bundle_map(), bundle.id) {
                    Some(s0) => {
                        assert(self.lists() == before.lists().remove(bundle.id));
                        assert(self.infos() == before.infos().remove(bundle.id));
                        assert(self.bundle_map() == before.bundle_map().remove(s0));
                    },
                    None => {
                        assert(self.lists() == before.lists());
                        assert(self.infos() == before.infos());
                        assert(self.bundle_map() == before.bundle_map());
                    },
                }
                assert forall|id: BundleId| #[trigger] self.lists().dom().contains(id) implies old(self).lists().dom().contains(id) && self.lists()[id] == old(self).lists()[id] by {
                    assert(before.lists().dom().contains(id));
                }
                assert forall|id: BundleId| #[trigger] self.infos().dom().contains(id) implies old(self).infos().dom().contains(id) && self.infos()[id] == old(self).infos()[id] by {
                    assert(before.infos().dom().contains(id));
                }
                assert forall|id: u32| #[trigger] self.bundle_map().dom().contains(id) implies old(self).bundle_map().dom().contains(id) && self.bundle_map()[id] == old(self).bundle_map()[id] by {
                    assert(before.bundle_map().dom().contains(id));
                }
                before.lemma_wf();
                old(self).lemma_wf();
                let done = gone@.subrange(0, k as int);
                let next = gone@.subrange(0, k + 1);
                assert(next.drop_last() =~= done);
                assert(next.last() == bundle);
                assert forall|id: BundleId| header_ids(next).contains(id) <==> header_ids(
                    done,
                ).contains(id) || id == bundle.id by {
                    lemma_header_ids_push(done, bundle);
                    assert(next =~= done.push(bundle));
                }
                assert forall|id: BundleId| #[trigger]
                    old(self).lists().dom().contains(id) && !header_ids(next).contains(
                        id,
                    ) implies self.lists().contains_pair(id, old(self).lists()[id])
                    && self.infos().contains_pair(id, old(self).infos()[id]) by {
                    assert(!header_ids(done).contains(id) && id != bundle.id);
                    assert(before.lists().contains_pair(id, old(self).lists()[id]));
                    assert(before.infos().contains_pair(id, old(self).infos()[id]));
                }
                assert forall|small: u32| #[trigger]
                    old(self).bundle_map().dom().contains(small) implies (
                self.bundle_map().dom().contains(small) <==> !header_ids(next).contains(
                    old(self).bundle_map()[small],
                )) by {
                    let cid = old(self).bundle_map()[small];
                    match id_of(before.bundle_map(), bundle.id) {
                        Some(s0) => {
                            assert(before.bundle_map().contains_pair(s0, bundle.id));
                            assert(old(self).bundle_map().contains_pair(s0, bundle.id));
                            if cid == bundle.id {
                                assert(old(self).bundle_map()[s0] == old(self).bundle_map()[small]);
                            }
                        },
                        None => {
                            if before.bundle_map().dom().contains(small) {
                                assert(before.bundle_map().contains_pair(small, cid));
                            }
                        },
                    }
                }
            }
            k += 1;
        }
        assert(gone@.subrange(0, k as int) =~= gone@);
    }

    /// Opens a repository over what its directory and its remote hold. Remote bundles that
    /// the cache does not know are taken up: each gets a small id at the watermark of its
    /// mode, and its chunks are recorded in the index. Cached bundles that are gone from the
    /// remote are forgotten: they leave the bundle map, and the index loses the entries that
    /// point into them. Then the bundle map is saved and the watermarks are set anew: the
    /// one for meta bundles to the smallest free id above 0, the one for data bundles to
    /// the next free id above that. A configuration that cannot be used, a listing that is
    /// not valid and a bundle map that names something twice are refused, in this order.
    /// Beyond that opening fails only for want of ids or of room in the index, and with
    /// nothing new on the remote only where the bundle map leaves fewer than two ids free.
    pub fn open(local: LocalState, remote: RemoteState, session: Session, codec: C) -> (r: Result<
        Repository<C>,
        RepositoryError,
    >)
        requires
            local.index.wf(),
        ensures
            !local.config.valid() ==> r matches Err(RepositoryError::ConfigInvalid),
            local.config.valid() && !listing_valid(local.cache@, remote.bundles@) ==> r matches Err(
                RepositoryError::BundleFormat,
            ),
            local.config.valid() && listing_valid(local.cache@, remote.bundles@) && !rows_injective(
                local.bundle_map@,
            ) ==> r matches Err(RepositoryError::BundleMapCorrupt),
            r matches Err(e) ==> e == RepositoryError::ConfigInvalid || e
                == RepositoryError::BundleFormat || e == RepositoryError::BundleMapCorrupt || e
                == RepositoryError::IdsExhausted || e == RepositoryError::IndexFull,
            r matches Err(RepositoryError::ConfigInvalid) ==> !local.config.valid(),
            r matches Err(RepositoryError::BundleFormat) ==> !listing_valid(
                local.cache@,
                remote.bundles@,
            ),
            r matches Err(RepositoryError::BundleMapCorrupt) ==> !rows_injective(local.bundle_map@),
            r matches Err(RepositoryError::IndexFull) ==> !nothing_new(
                local.cache@,
                remote.bundles@,
            ) && local.index.spec_filled() + new_load(
                local.cache@,
                remote.bundles@,
                remote.bundles@.len() as int,
            ) >= crate::index::ROOMY,
            r matches Err(RepositoryError::IdsExhausted) ==> (!nothing_new(
                local.cache@,
                remote.bundles@,
            ) || !two_free(rows_map(local.bundle_map@))) && !ids_spare(
                local.bundle_map@,
                remote.bundles@.len() + 4,
            ),
            opens(&local, &remote) ==> r is Ok,
            r matches Ok(repo) ==> {
                &&& repo.wf()
                &&& is_next_free(repo.bundle_map(), 0, repo.next_meta())
                &&& is_next_free(repo.bundle_map(), repo.next_meta(), repo.next_data())
                &&& repo.index_filled() <= local.index.spec_filled() + new_load(
                    local.cache@,
                    remote.bundles@,
                    remote.bundles@.len() as int,
                )
                &&& nothing_gone(local.cache@, remote.bundles@) ==> forall|j: int|
                    0 <= j < remote.bundles@.len() && !metas_list(
                        local.cache@,
                        (#[trigger] remote.bundles@[j]).info.id,
                    ) ==> repo.bundle_indexed(remote.bundles@[j].info.id)
                &&& forall|id: BundleId|
                    repo.infos().dom().contains(id) ==> metas_list(local.cache@, id)
                        || bundles_list(remote.bundles@, id)
                &&& forall|small: u32| #[trigger]
                    rows_map(local.bundle_map@).dom().contains(small) ==> (if gone(
                        local.cache@,
                        remote.bundles@,
                        rows_map(local.bundle_map@)[small],
                    ) {
                        !repo.bundle_map().dom().contains(small)
                    } else {
                        repo.bundle_map().contains_pair(small, rows_map(local.bundle_map@)[small])
                    })
                &&& forall|small: u32| #[trigger]
                    repo.bundle_map().dom().contains(small) && !rows_map(
                        local.bundle_map@,
                    ).dom().contains(small) ==> bundles_list(
                        remote.bundles@,
                        repo.bundle_map()[small],
                    ) && !metas_list(local.cache@, repo.bundle_map()[small])
                &&& local_sound(&local) ==> repo.consistent()
                &&& repo.config() == local.config
                &&& repo.saved_config() == local.config
                &&& repo.keys() == pairs_map(local.keys@)
                &&& repo.is_dirty() == local.dirty
                &&& repo.time() == session.now
                &&& repo.lock_files() == remote.locks@
                &&& repo.writer(BundleMode::Data) is None
                &&& repo.writer(BundleMode::Meta) is None
                &&& repo.remote_bundles() == remote.bundles@
                &&& rows_injective(repo.saved_map())
                &&& rows_map(repo.saved_map()) == repo.bundle_map()
                &&& cache_matches(repo.saved_cache(), repo.infos(), repo.lists())
                &&& forall|j: int|
                    0 <= j < remote.bundles@.len() ==> repo.blobs().contains_pair(
                        (#[trigger] remote.bundles@[j]).info.id,
                        remote.bundles@[j].data@,
                    )
                &&& forall|id: BundleId|
                    repo.blobs().dom().contains(id) ==> bundles_list(remote.bundles@, id)
                &&& forall|j: int|
                    0 <= j < remote.bundles@.len() && !metas_list(
                        local.cache@,
                        (#[trigger] remote.bundles@[j]).info.id,
                    ) ==> id_of(repo.bundle_map(), remote.bundles@[j].info.id) is Some
                &&& forall|small: u32| #[trigger]
                    repo.bundle_map().dom().contains(small) ==> !gone(
                        local.cache@,
                        remote.bundles@,
                        repo.bundle_map()[small],
                    )
                &&& forall|j: int|
                    0 <= j < remote.bundles@.len() ==> #[trigger] known_as(
                        repo.infos(),
                        repo.lists(),
                        local.cache@,
                        remote.bundles@[j],
                    )
                &&& unchanged_remote(local.cache@, remote.bundles@) ==> repo.bundle_headers()
                    == local.cache@.map_values(|m: BundleMeta| m.info)
                &&& unchanged_remote(local.cache@, remote.bundles@) ==> repo.index() == local.index@
                    && repo.bundle_map() == rows_map(local.bundle_map@) && repo.bundle_rows()
                    == local.bundle_map@
            },
    {
        if !local.config.is_valid() {
            return Err(RepositoryError::ConfigInvalid);
        }
        let LocalState { config, keys, index, bundle_map: rows, cache, dirty } = local;
        let RemoteState { bundles: remote_bundles, locks } = remote;
        let ghost cache0 = cache@;
        let ghost remote0 = remote_bundles@;
        let (bundles, new, gone_list) = match BundleDb::open(cache, remote_bundles) {
            Ok(t) => t,
            Err(e) => {
                return Err(e);
            },
        };
        let bundle_map = match BundleMap::load(&rows) {
            Some(m) => m,
            None => {
                return Err(RepositoryError::BundleMapCorrupt);
            },
        };
        let ghost bound = u32::MAX - 2 - remote0.len();
        proof {
            if ids_spare(rows@, remote0.len() + 4) {
                assert forall|x: u32| #[trigger] bundle_map@.dom().contains(x) implies x < bound
                    - 2 by {
                    let k = choose|k: int| 0 <= k < rows@.len() && (#[trigger] rows@[k]).id == x;
                    assert(rows@[k].id + remote0.len() + 4 < u32::MAX);
                }
                assert(!bundle_map@.dom().contains(u32::MAX));
            }
        }
        let next_meta = match free_above(&bundle_map, 0) {
            Some(n) => n,
            None => {
                proof {
                    if two_free(bundle_map@) {
                        lemma_two_free(bundle_map@);
                    }
                }
                return Err(RepositoryError::IdsExhausted);
            },
        };
        proof {
            if ids_spare(rows@, remote0.len() + 4) {
                lemma_next_free_bound(bundle_map@, 0, next_meta, bound - 2);
            }
        }
        let next_data = match free_above(&bundle_map, next_meta) {
            Some(n) => n,
            None => {
                proof {
                    if two_free(bundle_map@) {
                        lemma_two_free(bundle_map@);
                    }
                }
                return Err(RepositoryError::IdsExhausted);
            },
        };
        proof {
            if ids_spare(rows@, remote0.len() + 4) {
                lemma_next_free_bound(bundle_map@, next_meta, next_data, bound - 1);
            }
        }
        sodium_init();
        let mut repo = Repository {
            config,
            index,
            crypto: KeyStore::load(&keys),
            bundle_map,
            next_data_bundle: next_data,
            next_meta_bundle: next_meta,
            bundles,
            data_bundle: None,
            meta_bundle: None,
            locks: LockFolder::new(locks, session.host, session.pid),
            dirty,
            now: session.now,
            codec,
            saved_config: config,
            saved_map: rows,
            saved_cache: Vec::new(),
        };
        let ghost start = repo;
        proof {
            repo.bundles.lemma_views();
            if local_sound(&local) {
                assert forall|h: hash::Hash| #[trigger] repo.index().dom().contains(h) implies entry_ok(
                    repo.bundle_map(),
                    repo.lists(),
                    h,
                    repo.index()[h],
                ) by {
                    let loc = repo.index()[h];
                    assert(entry_ok(rows_map(rows@), meta_lists(cache0), h, loc));
                    let cid = repo.bundle_map()[loc.bundle];
                    let k = choose|k: int|
                        0 <= k < cache0.len() && (#[trigger] cache0[k]).info.id == cid;
                    assert(repo.lists().contains_pair(cache0[k].info.id, cache0[k].chunks@));
                }
            }
            assert forall|k: int| 0 <= k < new@.len() implies repo.lists().dom().contains(
                (#[trigger] new@[k]).id,
            ) && repo.infos()[new@[k].id] == new@[k] by {
                let j = choose|j: int|
                    0 <= j < remote0.len() && (#[trigger] remote0[j]).info == new@[k];
                assert(repo.bundles.infos().contains_pair(remote0[j].info.id, remote0[j].info));
            }
            if ids_spare(rows@, remote0.len() + 4) {
                assert(repo.ids_under(bound as int));
            }
            assert(repo.index_filled() == local.index.spec_filled());
        }
        proof {
            if nothing_new(cache0, remote0) {
                if new@.len() > 0 {
                    let j = choose|j: int|
                        0 <= j < remote0.len() && (#[trigger] remote0[j]).info == new@[0];
                    assert(metas_list(cache0, remote0[j].info.id));
                }
            }
            if unchanged_remote(cache0, remote0) {
                if new@.len() > 0 {
                    let j = choose|j: int|
                        0 <= j < remote0.len() && (#[trigger] remote0[j]).info == new@[0];
                    assert(metas_list(cache0, remote0[j].info.id));
                }
                if gone_list@.len() > 0 {
                    let k = choose|k: int|
                        0 <= k < cache0.len() && (#[trigger] cache0[k]).info == gone_list@[0];
                    assert(bundles_list(remote0, cache0[k].info.id));
                }
                assert(repo.bundles.local_metas() =~= cache0);
                assert(repo.bundle_headers() == cache0.map_values(|m: BundleMeta| m.info));
            }
        }
        match repo.adopt_all(&new, Ghost(bound as int)) {
            Ok(()) => {},
            Err(e) => {
                return Err(e);
            },
        }
        let ghost adopted = repo;
        repo.forget_all(&gone_list);
        let _ = repo.save_bundle_map();
        repo.save_cache();
        proof {
            if nothing_gone(cache0, remote0) {
                if gone_list@.len() > 0 {
                    let k = choose|k: int|
                        0 <= k < cache0.len() && (#[trigger] cache0[k]).info == gone_list@[0];
                    assert(bundles_list(remote0, cache0[k].info.id));
                }
                assert(repo.same_storage(&adopted));
                assert forall|j: int|
                    0 <= j < remote0.len() && !metas_list(
                        cache0,
                        (#[trigger] remote0[j]).info.id,
                    ) implies repo.bundle_indexed(remote0[j].info.id) by {
                    let w = choose|w: int|
                        0 <= w < new@.len() && #[trigger] new@[w] == remote0[j].info;
                    assert(adopted.bundle_indexed(new@[w].id));
                }
            }
            if nothing_new(cache0, remote0) && two_free(rows_map(rows@)) {
                assert(start.bundle_map() == rows_map(rows@));
                assert(adopted.bundle_map() == start.bundle_map());
                assert(within(repo.bundle_map@, rows_map(rows@)));
                lemma_two_free_within(repo.bundle_map@, rows_map(rows@));
            }
            if ids_spare(rows@, remote0.len() + 4) {
                assert(adopted.ids_under(bound + new@.len()));
                assert forall|x: u32| #[trigger] repo.bundle_map@.dom().contains(x) implies x
                    < u32::MAX - 2 by {
                    assert(adopted.bundle_map().dom().contains(x));
                }
                assert(!repo.bundle_map@.dom().contains(u32::MAX));
                assert forall|a: u32| is_next_free(repo.bundle_map@, 0, a) implies !ids_exhausted(
                    repo.bundle_map@,
                    a,
                ) by {
                    lemma_next_free_bound(repo.bundle_map@, 0, a, u32::MAX - 2);
                }
            }
        }
        match free_above(&repo.bundle_map, 0) {
            Some(n) => {
                repo.next_meta_bundle = n;
            },
            None => {
                return Err(RepositoryError::IdsExhausted);
            },
        }
        match free_above(&repo.bundle_map, repo.next_meta_bundle) {
            Some(n) => {
                repo.next_data_bundle = n;
            },
            None => {
                return Err(RepositoryError::IdsExhausted);
            },
        }
        proof {
            adopted.lemma_wf();
            start.lemma_wf();
            assert forall|id: BundleId| repo.infos().dom().contains(id) implies metas_list(
                cache0,
                id,
            ) || bundles_list(remote0, id) by {
                assert(adopted.infos().dom().contains(id));
            }
            assert forall|small: u32| #[trigger]
                rows_map(rows@).dom().contains(small) implies (if gone(
                cache0,
                remote0,
                rows_map(rows@)[small],
            ) {
                !repo.bundle_map().dom().contains(small)
            } else {
                repo.bundle_map().contains_pair(small, rows_map(rows@)[small])
            }) by {
                let cid = rows_map(rows@)[small];
                assert(start.bundle_map().contains_pair(small, cid));
                assert(adopted.bundle_map().contains_pair(small, cid));
                if gone(cache0, remote0, cid) {
                    let k = choose|k: int|
                        0 <= k < cache0.len() && (#[trigger] cache0[k]).info.id == cid;
                    let g = choose|g: int|
                        0 <= g < gone_list@.len() && #[trigger] gone_list@[g] == cache0[k].info;
                    assert(header_ids(gone_list@)[g] == cid);
                    assert(header_ids(gone_list@).contains(cid));
                } else if header_ids(gone_list@).contains(cid) {
                    let g = choose|g: int|
                        0 <= g < header_ids(gone_list@).len() && #[trigger] header_ids(
                            gone_list@,
                        )[g] == cid;
                    assert(gone_list@[g].id == cid);
                    assert(header_in_metas(cache0, gone_list@[g]));
                    let k = choose|k: int|
                        0 <= k < cache0.len() && (#[trigger] cache0[k]).info == gone_list@[g];
                    assert(cache0[k].info.id == cid);
                    assert(!bundles_list(remote0, gone_list@[g].id));
                }
            }
            assert forall|small: u32| #[trigger]
                repo.bundle_map().dom().contains(small) && !rows_map(rows@).dom().contains(
                    small,
                ) implies bundles_list(remote0, repo.bundle_map()[small]) && !metas_list(
                cache0,
                repo.bundle_map()[small],
            ) by {
                let cid = repo.bundle_map()[small];
                assert(adopted.bundle_map().contains_pair(small, cid));
                assert(header_ids(new@).contains(cid));
                let w = choose|w: int|
                    0 <= w < header_ids(new@).len() && #[trigger] header_ids(new@)[w] == cid;
                assert(new@[w].id == cid);
                assert(header_in_bundles(remote0, new@[w]));
                let j = choose|j: int|
                    0 <= j < remote0.len() && (#[trigger] remote0[j]).info == new@[w];
                assert(remote0[j].info.id == cid);
            }
            assert forall|j: int|
                0 <= j < remote0.len() && !metas_list(
                    cache0,
                    (#[trigger] remote0[j]).info.id,
                ) implies id_of(repo.bundle_map(), remote0[j].info.id) is Some by {
                let cid = remote0[j].info.id;
                let w = choose|w: int| 0 <= w < new@.len() && #[trigger] new@[w] == remote0[j].info;
                let small = id_of(adopted.bundle_map(), new@[w].id)->0;
                assert(adopted.bundle_map().contains_pair(small, cid));
                if header_ids(gone_list@).contains(cid) {
                    let g = choose|g: int|
                        0 <= g < header_ids(gone_list@).len() && #[trigger] header_ids(
                            gone_list@,
                        )[g] == cid;
                    assert(gone_list@[g].id == cid);
                    assert(!bundles_list(remote0, gone_list@[g].id));
                    assert(remote0[j].info.id == cid);
                }
                assert(repo.bundle_map().contains_pair(small, cid));
            }
            assert forall|j: int| 0 <= j < remote0.len() implies #[trigger] known_as(
                repo.infos(),
                repo.lists(),
                cache0,
                remote0[j],
            ) by {
                let id = remote0[j].info.id;
                assert(bundles_list(remote0, id));
                if header_ids(gone_list@).contains(id) {
                    let g = choose|g: int|
                        0 <= g < header_ids(gone_list@).len() && #[trigger] header_ids(
                            gone_list@,
                        )[g] == id;
                    assert(gone_list@[g].id == id);
                    assert(!bundles_list(remote0, gone_list@[g].id));
                }
                if metas_list(cache0, id) {
                    let k = choose|k: int|
                        0 <= k < cache0.len() && (#[trigger] cache0[k]).info.id == id;
                    assert(start.infos().contains_pair(cache0[k].info.id, cache0[k].info));
                    assert(start.lists().contains_pair(cache0[k].info.id, cache0[k].chunks@));
                    assert(adopted.lists().dom().contains(id));
                    assert(repo.lists().contains_pair(id, adopted.lists()[id]));
                    assert(cache0[k].info == repo.infos()[id] && cache0[k].chunks@
                        == repo.lists()[id]);
                } else {
                    assert(start.infos().contains_pair(id, remote0[j].info));
                    assert(start.lists().contains_pair(id, remote0[j].chunks@));
                    assert(adopted.lists().dom().contains(id));
                    assert(repo.lists().contains_pair(id, adopted.lists()[id]));
                }
            }
            assert forall|small: u32| #[trigger] repo.bundle_map().dom().contains(small) implies !gone(
                cache0,
                remote0,
                repo.bundle_map()[small],
            ) by {
                let cid = repo.bundle_map()[small];
                assert(adopted.bundle_map().dom().contains(small));
                assert(adopted.bundle_map().contains_pair(small, cid));
                if gone(cache0, remote0, cid) {
                    let k = choose|k: int|
                        0 <= k < cache0.len() && (#[trigger] cache0[k]).info.id == cid;
                    let g = choose|g: int|
                        0 <= g < gone_list@.len() && #[trigger] gone_list@[g] == cache0[k].info;
                    assert(header_ids(gone_list@)[g] == cid);
                    assert(header_ids(gone_list@).contains(cid));
                }
            }
        }
        Ok(repo)
    }

    /// Gives up the repository and hands out what its directory and its remote hold at this
    /// moment, with the compressor. Open bundles are discarded; what was saved last stays
    /// saved.
    pub fn close(self) -> (r: (LocalState, RemoteState, C))
        requires
            self.wf(),
        ensures
            r.0.index.wf(),
            r.0.index@ == self.index(),
            r.0.index.spec_filled() == self.index_filled(),
            r.0.config == self.saved_config(),
            r.0.bundle_map@ == self.saved_map(),
            r.0.cache@ == self.saved_cache(),
            r.0.dirty == self.is_dirty(),
            pairs_map(r.0.keys@) == self.keys(),
            r.1.bundles@ == self.remote_bundles(),
            r.1.locks@ == self.lock_files(),
    {
        let keys = self.crypto.key_pairs();
        proof {
            self.crypto.lemma_pairs();
        }
        let locks = self.locks.files();
        let local = LocalState {
            config: self.saved_config,
            keys,
            index: self.index,
            bundle_map: self.saved_map,
            cache: self.saved_cache,
            dirty: self.dirty,
        };
        let remote = RemoteState { bundles: self.bundles.into_remote(), locks };
        (local, remote, self.codec)
    }

    /// Whether importing is owed: the path of the remote is absolute, its listing is valid,
    /// there are ids for all its bundles and room in the index for all their chunks, and
    /// the configuration of the latest snapshot, if there is a snapshot, can be used.
    pub open spec fn imports(
        remote_path: Seq<char>,
        remote: &RemoteState,
        backups: Seq<BackupHeader>,
    ) -> bool {
        &&& Self::absolute(remote_path)
        &&& listing_valid(Seq::<BundleMeta>::empty(), remote.bundles@)
        &&& remote.bundles@.len() + 4 < u32::MAX
        &&& new_load(Seq::<BundleMeta>::empty(), remote.bundles@, remote.bundles@.len() as int)
            < crate::index::ROOMY
        &&& backups.len() > 0 ==> backups[latest_of(backups)].config.valid()
    }

    /// Sets up a repository for a remote that holds bundles already: a new repository is
    /// made with the default configuration, the key pairs are registered, and it is opened
    /// over the remote, which takes up every bundle there and records each of their chunks
    /// in the index. The configuration of the latest snapshot, if there is a snapshot,
    /// becomes the repository's and is saved.
    pub fn import(
        remote_path: &str,
        key_pairs: &Vec<KeyPair>,
        remote: RemoteState,
        backups: &Vec<BackupHeader>,
        session: Session,
        codec: C,
    ) -> (r: Result<Repository<C>, RepositoryError>)
        ensures
            !Self::absolute(remote_path@) ==> r matches Err(RepositoryError::ConfigInvalid),
            r matches Err(e) ==> e == RepositoryError::ConfigInvalid || e
                == RepositoryError::BundleFormat || e == RepositoryError::IdsExhausted || e
                == RepositoryError::IndexFull,
            r matches Err(RepositoryError::BundleFormat) ==> !listing_valid(
                Seq::<BundleMeta>::empty(),
                remote.bundles@,
            ),
            Self::absolute(remote_path@) && !listing_valid(
                Seq::<BundleMeta>::empty(),
                remote.bundles@,
            ) ==> r matches Err(RepositoryError::BundleFormat),
            r matches Err(RepositoryError::ConfigInvalid) ==> !Self::absolute(remote_path@) || (
            backups@.len() > 0 && !backups@[latest_of(backups@)].config.valid()),
            r matches Err(RepositoryError::IndexFull) ==> new_load(
                Seq::<BundleMeta>::empty(),
                remote.bundles@,
                remote.bundles@.len() as int,
            ) >= crate::index::ROOMY,
            r matches Err(RepositoryError::IdsExhausted) ==> remote.bundles@.len() + 4
                >= u32::MAX,
            Self::imports(remote_path@, &remote, backups@) ==> r is Ok,
            r matches Ok(repo) ==> {
                &&& repo.wf()
                &&& repo.consistent()
                &&& forall|j: int|
                    0 <= j < remote.bundles@.len() ==> repo.lists().contains_pair(
                        (#[trigger] remote.bundles@[j]).info.id,
                        remote.bundles@[j].chunks@,
                    ) && repo.bundle_indexed(remote.bundles@[j].info.id)
                &&& repo.config() == repo.saved_config()
                &&& repo.config() == (if backups@.len() == 0 {
                    crate::config::default_config()
                } else {
                    backups@[latest_of(backups@)].config
                })
                &&& repo.keys() == pairs_map(key_pairs@)
                &&& repo.remote_bundles() == remote.bundles@
                &&& repo.lock_files() == remote.locks@
                &&& forall|j: int|
                    0 <= j < remote.bundles@.len() ==> id_of(
                        repo.bundle_map(),
                        (#[trigger] remote.bundles@[j]).info.id,
                    ) is Some
            },
    {
        let mut fresh = match Repository::create(Config::default(), remote_path, session, codec) {
            Ok(repo) => repo,
            Err(e) => {
                return Err(e);
            },
        };
        let mut k: usize = 0;
        while k < key_pairs.len()
            invariant
                k <= key_pairs@.len(),
                fresh.wf(),
                fresh.keys() == pairs_map(key_pairs@.subrange(0, k as int)),
                fresh.index() == Map::<hash::Hash, Location>::empty(),
                fresh.saved_config() == crate::config::default_config(),
                fresh.saved_map() == Seq::<MapEntry>::empty(),
                fresh.saved_cache() == Seq::<BundleMeta>::empty(),
                fresh.index_filled() == 0,
                !fresh.is_dirty(),
            decreases key_pairs@.len() - k,
        {
            let _ = fresh.register_key(key_pairs[k].public, key_pairs[k].secret);
            proof {
                assert(key_pairs@.subrange(0, k + 1).drop_last() =~= key_pairs@.subrange(
                    0,
                    k as int,
                ));
            }
            k += 1;
        }
        assert(key_pairs@.subrange(0, k as int) =~= key_pairs@);
        let (local, _none, codec) = fresh.close();
        proof {
            assert(meta_lists(local.cache@).dom() =~= Set::<BundleId>::empty());
            assert(local_sound(&local));
            assert forall|id: BundleId| !metas_list(local.cache@, id) by {}
            assert(local.config.valid());
            assert(nothing_gone(local.cache@, remote.bundles@));
            if remote.bundles@.len() + 4 < u32::MAX {
                assert(ids_spare(local.bundle_map@, remote.bundles@.len() + 4));
            }
            assert(rows_injective(local.bundle_map@));
        }
        let ghost listing = remote.bundles@;
        let mut repo = match Repository::open(local, remote, session, codec) {
            Ok(repo) => repo,
            Err(e) => {
                return Err(e);
            },
        };
        match latest_backup(backups) {
            Some(i) => {
                proof {
                    lemma_latest_unique(backups@, i as int, latest_of(backups@));
                }
                if !repo.set_config(backups[i].config) {
                    return Err(RepositoryError::ConfigInvalid);
                }
                let _ = repo.save_config();
            },
            None => {},
        }
        proof {
            assert forall|j: int| 0 <= j < listing.len() implies repo.lists().contains_pair(
                (#[trigger] listing[j]).info.id,
                listing[j].chunks@,
            ) && repo.bundle_indexed(listing[j].info.id) by {
                assert(known_as(repo.infos(), repo.lists(), Seq::<BundleMeta>::empty(), listing[j]));
            }
        }
        Ok(repo)
    }

    /// Sets or clears the mark that a risky operation is under way.
    pub fn set_dirty(&mut self, dirty: bool)
        requires
            old(self).wf(),
        ensures
            final(self).wf(),
            final(self).is_dirty() == dirty,
            final(self).same_storage(old(self)),
            final(self).bundle_rows() == old(self).bundle_rows(),
            final(self).remote_bundles() == old(self).remote_bundles(),
            final(self).config() == old(self).config(),
            final(self).keys() == old(self).keys(),
            final(self).lock_files() == old(self).lock_files(),
            final(self).time() == old(self).time(),
            final(self).saved_config() == old(self).saved_config(),
            final(self).saved_map() == old(self).saved_map(),
            final(self).saved_cache() == old(self).saved_cache(),
    {
        self.dirty = dirty;
    }

    /// Clears the dirty mark: to be called after a full check has passed.
    pub fn set_clean(&mut self)
        requires
            old(self).wf(),
        ensures
            final(self).wf(),
            !final(self).is_dirty(),
            final(self).same_storage(old(self)),
            final(self).bundle_rows() == old(self).bundle_rows(),
            final(self).config() == old(self).config(),
            final(self).keys() == old(self).keys(),
            final(self).lock_files() == old(self).lock_files(),
            final(self).time() == old(self).time(),
            final(self).saved_config() == old(self).saved_config(),
            final(self).saved_map() == old(self).saved_map(),
            final(self).saved_cache() == old(self).saved_cache(),
    {
        self.dirty = false;
    }

    /// Sets the time that bundles and locks are stamped with from now on.
    pub fn set_time(&mut self, now: u64)
        requires
            old(self).wf(),
        ensures
            final(self).wf(),
            final(self).time() == now,
            final(self).same_storage(old(self)),
            final(self).bundle_rows() == old(self).bundle_rows(),
            final(self).config() == old(self).config(),
            final(self).keys() == old(self).keys(),
            final(self).lock_files() == old(self).lock_files(),
            final(self).is_dirty() == old(self).is_dirty(),
            final(self).saved_config() == old(self).saved_config(),
            final(self).saved_map() == old(self).saved_map(),
            final(self).saved_cache() == old(self).saved_cache(),
    {
        self.now = now;
    }

    /// Takes a lock on the repository.
    pub fn lock(&mut self, exclusive: bool) -> (r: Result<LockHandle, RepositoryError>)
        requires
            old(self).wf(),
        ensures
            final(self).wf(),
            final(self).same_storage(old(self)),
            final(self).bundle_rows() == old(self).bundle_rows(),
            final(self).remote_bundles() == old(self).remote_bundles(),
            final(self).config() == old(self).config(),
            final(self).is_dirty() == old(self).is_dirty(),
            final(self).keys() == old(self).keys(),
            final(self).time() == old(self).time(),
            final(self).saved_config() == old(self).saved_config(),
            final(self).saved_map() == old(self).saved_map(),
            final(self).saved_cache() == old(self).saved_cache(),
            final(self).host() == old(self).host(),
            final(self).pid() == old(self).pid(),
            match r {
                Ok(handle) => {
                    &&& !crate::lock::blocked(old(self).lock_files(), exclusive)
                    &&& handle.file == LockFile {
                        host: old(self).host(),
                        pid: old(self).pid(),
                        timestamp: old(self).time(),
                        exclusive,
                    }
                    &&& final(self).lock_files() == old(self).lock_files().push(handle.file)
                },
                Err(e) => {
                    &&& crate::lock::blocked(old(self).lock_files(), exclusive)
                    &&& final(self).lock_files() == old(self).lock_files()
                    &&& e == (if crate::lock::blocked_by_live(
                        old(self).lock_files(),
                        exclusive,
                        old(self).time(),
                    ) {
                        RepositoryError::LockBusy
                    } else {
                        RepositoryError::LockStale
                    })
                },
            },
    {
        self.locks.lock(exclusive, self.now)
    }

    /// Breaks the stale locks on the repository, if the operator has confirmed that. Returns
    /// the number of locks that were removed.
    pub fn break_stale_locks(&mut self, confirmed: bool) -> (removed: usize)
        requires
            old(self).wf(),
        ensures
            final(self).wf(),
            final(self).same_storage(old(self)),
            final(self).config() == old(self).config(),
            final(self).is_dirty() == old(self).is_dirty(),
            final(self).keys() == old(self).keys(),
            final(self).time() == old(self).time(),
            !confirmed ==> final(self).lock_files() == old(self).lock_files() && removed == 0,
            confirmed ==> final(self).lock_files() == crate::lock::live_files(
                old(self).lock_files(),
                old(self).time(),
            ) && removed == old(self).lock_files().len() - final(self).lock_files().len(),
    {
        self.locks.break_stale(self.now, confirmed)
    }

    /// Gives a lock back. Returns whether its lock file was there.
    pub fn unlock(&mut self, handle: LockHandle) -> (was: bool)
        requires
            old(self).wf(),
        ensures
            final(self).wf(),
            final(self).same_storage(old(self)),
            final(self).bundle_rows() == old(self).bundle_rows(),
            final(self).remote_bundles() == old(self).remote_bundles(),
            final(self).config() == old(self).config(),
            final(self).is_dirty() == old(self).is_dirty(),
            final(self).keys() == old(self).keys(),
            final(self).time() == old(self).time(),
            final(self).saved_config() == old(self).saved_config(),
            final(self).saved_map() == old(self).saved_map(),
            final(self).saved_cache() == old(self).saved_cache(),
            was == old(self).lock_files().contains(handle.file),
            !was ==> final(self).lock_files() == old(self).lock_files(),
            was ==> exists|k: int|
                crate::lock::is_first(old(self).lock_files(), handle.file, k) && final(self).lock_files() == #[trigger] old(self).lock_files().remove(k),
    {
        let ghost before = self.locks@;
        let was = self.locks.unlock(handle);
        proof {
            if was {
                let k = choose|k: int|
                    0 <= k < before.len() && crate::lock::is_first(before, handle.file, k)
                        && self.locks@ == #[trigger] before.remove(k);
                assert(self.lock_files() == old(self).lock_files().remove(k));
            }
        }
        was
    }
}

} // verus!
