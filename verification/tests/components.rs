use zvault::bundle::{content_id, encode_file};
use zvault::bundle_map::{decode_table, encode_table};
use zvault::cli::ErrorCode;
use zvault::format::{decode_file, decode_list, decode_meta, encode_list, encode_meta};
use zvault::hash;
use zvault::lock::STALE_AFTER;
use zvault::repository::{find_reference_backup, latest_backup};
use zvault::{
    BackupHeader, BundleId, BundleMap, BundleMode, ChunkEntry, Chunker, ChunkerAlgorithm,
    ChunkerSpec, Config, HashMethod, Index, KeyStore, Location, LockFile, LockFolder, MapEntry,
    NoCompressor, PublicKey, Repository, RepositoryError, SecretKey, Session,
};

fn noise(len: usize, seed: u64) -> Vec<u8> {
    let mut state = seed;
    let mut out = Vec::with_capacity(len);
    for _ in 0..len {
        state = state.wrapping_mul(6364136223846793005).wrapping_add(1442695040888963407);
        out.push((state >> 33) as u8);
    }
    out
}

fn key(n: u64) -> hash::Hash {
    hash::Hash { high: n.wrapping_mul(0x9E37_79B9_7F4A_7C15), low: n }
}

fn cid(n: u64) -> BundleId {
    BundleId { hash: key(n) }
}

#[test]
fn blake2_fingerprint_is_the_digest_of_the_crate() {
    for data in [&b""[..], &b"abc"[..], &noise(5000, 1)[..]] {
        let digest = blake2_rfc::blake2b::blake2b(16, &[], data);
        let bytes = digest.as_bytes();
        let mut high = [0u8; 8];
        let mut low = [0u8; 8];
        high.copy_from_slice(&bytes[0..8]);
        low.copy_from_slice(&bytes[8..16]);
        let h = HashMethod::Blake2.hash(data);
        assert_eq!(h.high, u64::from_be_bytes(high));
        assert_eq!(h.low, u64::from_be_bytes(low));
    }
    assert_ne!(HashMethod::Blake2.hash(b"a"), HashMethod::Blake2.hash(b"b"));
}

#[test]
fn blake2_fingerprint_of_nothing() {
    let h = HashMethod::Blake2.hash(b"");
    assert_eq!(h.high, 0xcae6_6941_d9ef_bd40);
    assert_eq!(h.low, 0x4e4d_8875_8ea6_7670);
}

#[test]
fn murmur3_fingerprint_is_the_pair_of_the_crate() {
    let data = noise(777, 2);
    let (high, low) = murmurhash3::murmurhash3_x64_128(&data, 0);
    assert_eq!(HashMethod::Murmur3.hash(&data), hash::Hash { high, low });
    assert_ne!(HashMethod::Murmur3.hash(b"a"), HashMethod::Murmur3.hash(b"b"));
}

#[test]
fn index_set_get_delete() {
    let mut index = Index::new();
    assert_eq!(index.len(), 0);
    assert_eq!(index.capacity(), 16);
    assert_eq!(index.get(&key(1)), None);
    assert!(index.set(&key(1), &Location { bundle: 3, chunk: 4 }));
    assert!(index.set(&key(2), &Location { bundle: 3, chunk: 5 }));
    assert_eq!(index.get(&key(1)), Some(Location { bundle: 3, chunk: 4 }));
    assert!(index.set(&key(1), &Location { bundle: 9, chunk: 0 }));
    assert_eq!(index.get(&key(1)), Some(Location { bundle: 9, chunk: 0 }));
    assert_eq!(index.len(), 2);
    assert!(index.delete(&key(1)));
    assert!(!index.delete(&key(1)));
    assert!(!index.contains(&key(1)));
    assert!(index.contains(&key(2)));
    assert_eq!(index.len(), 1);
}

#[test]
fn index_colliding_hashes_are_kept_apart() {
    let mut index = Index::new();
    let a = hash::Hash { high: 1, low: 5 };
    let b = hash::Hash { high: 2, low: 5 + 16 };
    let c = hash::Hash { high: 3, low: 5 + 32 };
    index.set(&a, &Location { bundle: 1, chunk: 1 });
    index.set(&b, &Location { bundle: 2, chunk: 2 });
    index.set(&c, &Location { bundle: 3, chunk: 3 });
    assert!(index.delete(&b));
    assert_eq!(index.get(&a), Some(Location { bundle: 1, chunk: 1 }));
    assert_eq!(index.get(&b), None);
    assert_eq!(index.get(&c), Some(Location { bundle: 3, chunk: 3 }));
    index.set(&b, &Location { bundle: 4, chunk: 4 });
    assert_eq!(index.get(&b), Some(Location { bundle: 4, chunk: 4 }));
    assert_eq!(index.len(), 3);
}

#[test]
fn index_doubles_at_three_quarters() {
    let mut index = Index::new();
    for n in 0..12 {
        assert!(index.set(&key(n), &Location { bundle: 0, chunk: n as u32 }));
    }
    assert_eq!(index.capacity(), 16);
    assert!(index.set(&key(12), &Location { bundle: 0, chunk: 12 }));
    assert_eq!(index.capacity(), 32);
    for n in 13..1000 {
        assert!(index.set(&key(n), &Location { bundle: 0, chunk: n as u32 }));
    }
    assert_eq!(index.len(), 1000);
    assert!(index.len() * 4 <= index.capacity() * 3);
    for n in 0..1000 {
        assert_eq!(index.get(&key(n)), Some(Location { bundle: 0, chunk: n as u32 }));
    }
    assert_eq!(index.get(&key(1000)), None);
}

#[test]
fn index_remove_bundle_and_clear() {
    let mut index = Index::new();
    for n in 0..100 {
        index.set(&key(n), &Location { bundle: (n % 3) as u32, chunk: n as u32 });
    }
    index.remove_bundle(1);
    assert_eq!(index.len(), 67);
    for n in 0..100 {
        assert_eq!(index.contains(&key(n)), n % 3 != 1);
    }
    let mut entries = index.entries();
    entries.sort_by_key(|e| e.1.chunk);
    assert_eq!(entries.len(), 67);
    assert_eq!(entries[0], (key(0), Location { bundle: 0, chunk: 0 }));
    assert_eq!(index.capacity(), 256);
    index.clear();
    assert_eq!(index.len(), 0);
    assert_eq!(index.capacity(), 256);
    assert!(!index.contains(&key(0)));
    assert!(index.set(&key(0), &Location { bundle: 9, chunk: 9 }));
    assert_eq!(index.get(&key(0)), Some(Location { bundle: 9, chunk: 9 }));
}

#[test]
fn index_file_round_trip() {
    let mut index = Index::new();
    for n in 0..50 {
        index.set(&key(n), &Location { bundle: 7, chunk: n as u32 });
    }
    index.delete(&key(3));
    let bytes = index.to_bytes();
    assert_eq!(&bytes[0..5], &[0x5a, 0x56, 0x49, 0x58, 1]);
    assert_eq!(bytes.len(), 21 + 25 * index.capacity());
    let loaded = Index::from_bytes(&bytes).unwrap();
    assert_eq!(loaded.len(), 49);
    for n in 0..50 {
        assert_eq!(loaded.get(&key(n)), index.get(&key(n)));
    }
}

#[test]
fn index_file_errors() {
    let mut index = Index::new();
    index.set(&key(1), &Location { bundle: 1, chunk: 1 });
    index.set(&key(2), &Location { bundle: 1, chunk: 2 });
    let good = index.to_bytes();
    let mut bytes = good.clone();
    bytes[4] = 9;
    assert_eq!(Index::from_bytes(&bytes).err(), Some(RepositoryError::WrongVersion));
    let mut bytes = good.clone();
    bytes[0] = 0;
    assert_eq!(Index::from_bytes(&bytes).err(), Some(RepositoryError::IndexCorrupt));
    let mut bytes = good.clone();
    bytes.pop();
    assert_eq!(Index::from_bytes(&bytes).err(), Some(RepositoryError::IndexCorrupt));
    let mut bytes = good.clone();
    bytes[5] = 3;
    assert_eq!(Index::from_bytes(&bytes).err(), Some(RepositoryError::IndexCorrupt));
    assert_eq!(Index::from_bytes(&Vec::new()).err(), Some(RepositoryError::IndexCorrupt));
    let used: Vec<usize> = (0..index.capacity()).filter(|k| good[21 + 25 * k + 24] == 1).collect();
    assert_eq!(used.len(), 2);
    let mut bytes = good.clone();
    let (a, b) = (21 + 25 * used[0], 21 + 25 * used[1]);
    for i in 0..16 {
        bytes[b + i] = good[a + i];
    }
    assert_eq!(Index::from_bytes(&bytes).err(), Some(RepositoryError::IndexCorrupt));
    let mut bytes = good.clone();
    bytes[a + 24] = 7;
    assert_eq!(Index::from_bytes(&bytes).err(), Some(RepositoryError::IndexCorrupt));
}

#[test]
fn bundle_map_is_injective() {
    let mut map = BundleMap::create();
    assert!(map.set(1, cid(10)));
    assert!(map.set(2, cid(20)));
    assert!(!map.set(3, cid(10)));
    assert!(map.set(1, cid(10)));
    assert_eq!(map.len(), 2);
    assert_eq!(map.get(1), Some(cid(10)));
    assert_eq!(map.get(3), None);
    assert_eq!(map.find(&cid(20)), Some(2));
    assert_eq!(map.find(&cid(30)), None);
    assert!(map.set(1, cid(30)));
    assert_eq!(map.find(&cid(10)), None);
    assert_eq!(map.remove(2), Some(cid(20)));
    assert_eq!(map.remove(2), None);
    assert_eq!(map.bundles(), vec![MapEntry { id: 1, bundle: cid(30) }]);
}

#[test]
fn bundle_map_load_refuses_duplicates() {
    let rows = vec![MapEntry { id: 1, bundle: cid(1) }, MapEntry { id: 2, bundle: cid(2) }];
    let map = BundleMap::load(&rows).unwrap();
    assert_eq!(map.bundles(), rows);
    let twice = vec![MapEntry { id: 1, bundle: cid(1) }, MapEntry { id: 1, bundle: cid(2) }];
    assert!(BundleMap::load(&twice).is_none());
    let alias = vec![MapEntry { id: 1, bundle: cid(1) }, MapEntry { id: 2, bundle: cid(1) }];
    assert!(BundleMap::load(&alias).is_none());
}

#[test]
fn bundle_map_table_round_trip() {
    let rows = vec![
        MapEntry { id: 1, bundle: cid(1) },
        MapEntry { id: 0x0102_0304, bundle: BundleId { hash: hash::Hash { high: 5, low: 6 } } },
    ];
    let bytes = encode_table(&rows);
    assert_eq!(bytes.len(), 4 + 2 * 20);
    assert_eq!(&bytes[0..4], &[2, 0, 0, 0]);
    assert_eq!(&bytes[24..28], &[4, 3, 2, 1]);
    assert_eq!(&bytes[28..36], &[5, 0, 0, 0, 0, 0, 0, 0]);
    assert_eq!(decode_table(&bytes), Some(rows));
    assert_eq!(decode_table(&bytes[..bytes.len() - 1].to_vec()), None);
    assert_eq!(decode_table(&vec![1, 0, 0]), None);
    assert_eq!(decode_table(&vec![0, 0, 0, 0]), Some(Vec::new()));
}

#[test]
fn chunker_cuts_cover_the_stream() {
    let data = noise(300_000, 3);
    for (algorithm, bits) in [(ChunkerAlgorithm::FastCdc, 10u8), (ChunkerAlgorithm::Fixed, 12u8)] {
        let chunker = Chunker::create(ChunkerSpec { algorithm, bits });
        let cuts = chunker.chunk(&data);
        assert_eq!(*cuts.last().unwrap(), data.len());
        let mut from = 0;
        for (k, &to) in cuts.iter().enumerate() {
            assert!(to > from);
            assert!(to - from <= chunker.max);
            if k + 1 < cuts.len() {
                assert!(to - from > chunker.min || chunker.min == chunker.max);
            }
            from = to;
        }
        assert_eq!(chunker.chunk(&data), cuts);
    }
    assert!(Chunker::create(ChunkerSpec { algorithm: ChunkerAlgorithm::Fixed, bits: 8 })
        .chunk(&[])
        .is_empty());
}

#[test]
fn chunker_sizes() {
    let fixed = Chunker::create(ChunkerSpec { algorithm: ChunkerAlgorithm::Fixed, bits: 12 });
    assert_eq!((fixed.min, fixed.avg, fixed.max), (4096, 4096, 4096));
    assert_eq!(fixed.chunk(&noise(10_000, 4)), vec![4096, 8192, 10_000]);
    let cdc = Chunker::create(ChunkerSpec { algorithm: ChunkerAlgorithm::FastCdc, bits: 16 });
    assert_eq!((cdc.min, cdc.avg, cdc.max), (16384, 65536, 524288));
    assert_eq!((cdc.short_modulus, cdc.long_modulus), (131072, 32768));
}

#[test]
fn chunker_average_is_near_the_target() {
    let data = noise(4 << 20, 5);
    let chunker = Chunker::create(ChunkerSpec { algorithm: ChunkerAlgorithm::FastCdc, bits: 12 });
    let cuts = chunker.chunk(&data);
    let average = data.len() / cuts.len();
    assert!(average >= 2048 && average <= 8192, "average {}", average);
}

#[test]
fn chunker_cuts_survive_an_appended_tail() {
    let data = noise(200_000, 6);
    let chunker = Chunker::create(ChunkerSpec { algorithm: ChunkerAlgorithm::FastCdc, bits: 10 });
    let whole = chunker.chunk(&data);
    let prefix = chunker.chunk(&data[..150_000]);
    let shared: Vec<usize> = whole.iter().cloned().filter(|&c| c < 150_000).collect();
    assert_eq!(&prefix[..prefix.len() - 1], &shared[..]);
    assert_eq!(*prefix.last().unwrap(), 150_000);
}

#[test]
fn lock_folder_exclusion_and_staleness() {
    let mut folder = LockFolder::new(Vec::new(), 1, 100);
    let shared = folder.lock(false, 1000).unwrap();
    assert_eq!(shared.file, LockFile { host: 1, pid: 100, timestamp: 1000, exclusive: false });
    assert!(folder.lock(false, 1001).is_ok());
    assert_eq!(folder.lock(true, 1002), Err(RepositoryError::LockBusy));
    assert_eq!(folder.lock(true, 1000 + STALE_AFTER), Err(RepositoryError::LockBusy));
    assert_eq!(folder.lock(true, 1002 + STALE_AFTER), Err(RepositoryError::LockStale));
    assert_eq!(folder.break_stale(1002 + STALE_AFTER, false), 0);
    assert_eq!(folder.files().len(), 2);
    assert_eq!(folder.break_stale(1001 + STALE_AFTER, true), 1);
    assert_eq!(folder.files().len(), 1);
    assert_eq!(folder.break_stale(1002 + STALE_AFTER, true), 1);
    let exclusive = folder.lock(true, 5000).unwrap();
    assert_eq!(folder.lock(false, 5001), Err(RepositoryError::LockBusy));
    assert!(folder.unlock(exclusive));
    assert!(!folder.unlock(exclusive));
    assert!(folder.files().is_empty());
}

#[test]
fn key_store_keeps_the_last_secret() {
    let a = PublicKey { bytes: [1; 32] };
    let b = PublicKey { bytes: [2; 32] };
    let mut store = KeyStore::new();
    assert!(!store.contains_secret_key(&a));
    store.register_secret_key(a, SecretKey { bytes: [10; 32] });
    store.register_secret_key(b, SecretKey { bytes: [20; 32] });
    store.register_secret_key(a, SecretKey { bytes: [30; 32] });
    assert_eq!(store.get_secret_key(&a), Some(SecretKey { bytes: [30; 32] }));
    assert_eq!(store.get_secret_key(&b), Some(SecretKey { bytes: [20; 32] }));
    assert_eq!(store.key_pairs().len(), 2);
    assert!(store.remove_key(&a));
    assert!(!store.remove_key(&a));
    assert_eq!(store.get_secret_key(&a), None);
    let again = KeyStore::load(&store.key_pairs());
    assert_eq!(again.get_secret_key(&b), Some(SecretKey { bytes: [20; 32] }));
}

#[test]
fn exit_codes() {
    assert_eq!(ErrorCode::InitializeLogger.code(), -1);
    assert_eq!(ErrorCode::InvalidExcludes.code(), -1);
    assert_eq!(ErrorCode::InvalidArgs.code(), 1);
    assert_eq!(ErrorCode::UnsafeArgs.code(), 2);
    assert_eq!(ErrorCode::LoadRepository.code(), 3);
    assert_eq!(ErrorCode::LoadBackup.code(), 4);
    assert_eq!(ErrorCode::LoadInode.code(), 5);
    assert_eq!(ErrorCode::LoadBundle.code(), 6);
    assert_eq!(ErrorCode::LoadKey.code(), 7);
    assert_eq!(ErrorCode::LoadExcludes.code(), 8);
    assert_eq!(ErrorCode::SaveBackup.code(), 9);
    assert_eq!(ErrorCode::AddKey.code(), 10);
    assert_eq!(ErrorCode::SaveKey.code(), 11);
    assert_eq!(ErrorCode::SaveConfig.code(), 12);
    assert_eq!(ErrorCode::CreateRepository.code(), 13);
    assert_eq!(ErrorCode::BackupRun.code(), 14);
    assert_eq!(ErrorCode::RestoreRun.code(), 15);
    assert_eq!(ErrorCode::RemoveRun.code(), 16);
    assert_eq!(ErrorCode::PruneRun.code(), 17);
    assert_eq!(ErrorCode::VacuumRun.code(), 18);
    assert_eq!(ErrorCode::CheckRun.code(), 19);
    assert_eq!(ErrorCode::AnalyzeRun.code(), 20);
    assert_eq!(ErrorCode::DiffRun.code(), 21);
    assert_eq!(ErrorCode::VersionsRun.code(), 22);
    assert_eq!(ErrorCode::ImportRun.code(), 23);
    assert_eq!(ErrorCode::FuseMount.code(), 24);
    assert_eq!(ErrorCode::NoSuchBackup.code(), 25);
    assert_eq!(ErrorCode::BackupAlreadyExists.code(), 26);
}

#[test]
fn bundle_file_round_trip() {
    let config = Config {
        bundle_size: 8192,
        chunker: ChunkerSpec { algorithm: ChunkerAlgorithm::Fixed, bits: 10 },
        compression: None,
        encryption: None,
        hash: HashMethod::Blake2,
    };
    let session = Session { host: 1, pid: 2, now: 1_600_000_000 };
    let mut repo = Repository::create(config, "/r", session, NoCompressor).unwrap();
    let data = noise(8192, 7);
    repo.put_stream(BundleMode::Data, &data).unwrap();
    repo.flush().unwrap();
    let (local, remote, _) = repo.close();
    let bundle = &remote.bundles[0];
    assert_eq!(bundle.info.timestamp, 1_600_000_000);
    assert_eq!(bundle.info.chunk_count, 8);
    assert_eq!(bundle.data, data);
    let bytes = encode_file(&bundle.info, &bundle.chunks, &bundle.data);
    assert_eq!(&bytes[0..5], b"ZVLT\x01");
    assert_eq!(&bytes[5..9], &[67, 0, 0, 0]);
    assert_eq!(bytes.len(), 76 + 8 * 20 + 8192);
    assert_eq!(content_id(&bundle.info, &bundle.chunks, &bundle.data), bundle.info.id);
    assert_eq!(bundle.info.id.hash, HashMethod::Blake2.hash(&bytes));
    let read = decode_file(&bytes).unwrap();
    assert_eq!(read.info, bundle.info);
    assert_eq!(read.chunks, bundle.chunks);
    assert_eq!(read.data, bundle.data);
    let meta = &local.cache[0];
    let cached = encode_meta(meta);
    assert_eq!(cached.len(), 76 + 8 * 20 + 16);
    let back = decode_meta(&cached).unwrap();
    assert_eq!(back.info, meta.info);
    assert_eq!(back.chunks, meta.chunks);
    assert_eq!(decode_meta(&bytes).err(), Some(RepositoryError::BundleFormat));
}

#[test]
fn bundle_file_errors() {
    let info = zvault::BundleInfo {
        id: cid(0),
        mode: BundleMode::Meta,
        hash_method: HashMethod::Murmur3,
        compression: None,
        encryption: None,
        chunk_count: 1,
        encoded_size: 3,
        raw_size: 3,
        timestamp: 5,
    };
    let chunks = vec![ChunkEntry { hash: key(1), len: 3 }];
    let good = encode_file(&info, &chunks, &vec![1, 2, 3]);
    let read = decode_file(&good).unwrap();
    assert_eq!(read.info.mode, BundleMode::Meta);
    assert_eq!(read.info.hash_method, HashMethod::Murmur3);
    assert_eq!(read.chunks, chunks);
    let mut bytes = good.clone();
    bytes[4] = 2;
    assert_eq!(decode_file(&bytes).err(), Some(RepositoryError::WrongVersion));
    let mut bytes = good.clone();
    bytes[1] = b'X';
    assert_eq!(decode_file(&bytes).err(), Some(RepositoryError::BundleFormat));
    let mut bytes = good.clone();
    bytes.push(0);
    assert_eq!(decode_file(&bytes).err(), Some(RepositoryError::BundleFormat));
    let mut bytes = good.clone();
    bytes[9] = 2;
    assert_eq!(decode_file(&bytes).err(), Some(RepositoryError::BundleFormat));
    let mut bytes = good.clone();
    bytes[12] = 1;
    assert_eq!(decode_file(&bytes).err(), Some(RepositoryError::BundleFormat));
    let mut bytes = good.clone();
    bytes[76 + 16] = 4;
    assert_eq!(decode_file(&bytes).err(), Some(RepositoryError::BundleFormat));
    assert_eq!(decode_file(&good[..8].to_vec()).err(), Some(RepositoryError::BundleFormat));
}

#[test]
fn chunk_list_round_trip() {
    let list = vec![
        ChunkEntry { hash: key(1), len: 10 },
        ChunkEntry { hash: key(2), len: 0xffff_ffff },
    ];
    let bytes = encode_list(&list);
    assert_eq!(bytes.len(), 40);
    assert_eq!(&bytes[36..40], &[0xff, 0xff, 0xff, 0xff]);
    assert_eq!(decode_list(&bytes), Some(list));
    assert_eq!(decode_list(&bytes[..39].to_vec()), None);
    assert_eq!(decode_list(&Vec::new()), Some(Vec::new()));
}

#[test]
fn latest_backup_is_the_last_of_the_youngest() {
    let config = Config::default();
    assert_eq!(latest_backup(&Vec::new()), None);
    let backups = vec![
        BackupHeader { timestamp: 5, config },
        BackupHeader { timestamp: 9, config },
        BackupHeader { timestamp: 7, config },
        BackupHeader { timestamp: 9, config },
        BackupHeader { timestamp: -3, config },
    ];
    assert_eq!(latest_backup(&backups), Some(3));
}

#[test]
fn import_takes_up_the_remote_and_the_latest_configuration() {
    let config = Config {
        bundle_size: 4096,
        chunker: ChunkerSpec { algorithm: ChunkerAlgorithm::Fixed, bits: 10 },
        compression: None,
        encryption: None,
        hash: HashMethod::Blake2,
    };
    let session = Session { host: 1, pid: 2, now: 3 };
    let mut source = Repository::create(config, "/r", session, NoCompressor).unwrap();
    let data = noise(10_000, 8);
    let list = source.put_stream(BundleMode::Data, &data).unwrap();
    source.flush().unwrap();
    let (_, remote, _) = source.close();
    let pair = zvault::KeyPair {
        public: PublicKey { bytes: [3; 32] },
        secret: SecretKey { bytes: [4; 32] },
    };
    let backups = vec![BackupHeader { timestamp: 1, config: Config::default() }, BackupHeader {
        timestamp: 2,
        config,
    }];
    let repo =
        Repository::import("/r", &vec![pair], remote, &backups, session, NoCompressor).unwrap();
    assert_eq!(repo.get_config(), config);
    assert_eq!(repo.info().bundle_count, 3);
    assert_eq!(repo.get_stream(&list).unwrap(), data);
    let (local, _, _) = repo.close();
    assert_eq!(local.config, config);
    assert_eq!(local.keys, vec![pair]);
    let r = Repository::import("r", &Vec::new(), zvault::RemoteState {
        bundles: Vec::new(),
        locks: Vec::new(),
    }, &Vec::new(), session, NoCompressor);
    assert!(matches!(r, Err(RepositoryError::ConfigInvalid)));
}

#[test]
fn check_index_finds_and_repairs_dangling_entries() {
    let config = Config {
        bundle_size: 4096,
        chunker: ChunkerSpec { algorithm: ChunkerAlgorithm::Fixed, bits: 10 },
        compression: None,
        encryption: None,
        hash: HashMethod::Blake2,
    };
    let session = Session { host: 1, pid: 2, now: 3 };
    let mut repo = Repository::create(config, "/r", session, NoCompressor).unwrap();
    let list = repo.put_stream(BundleMode::Data, &noise(8192, 9)).unwrap();
    repo.flush().unwrap();
    assert_eq!(repo.check_index(false), Ok(()));
    let gone = repo.locate(&list[0].hash).unwrap().bundle;
    assert_eq!(repo.delete_bundle(gone), Ok(()));
    assert_eq!(repo.delete_bundle(gone), Err(RepositoryError::BundleIdMissing(gone)));
    assert_eq!(repo.check_index(false), Err(RepositoryError::IndexCorrupt));
    assert_eq!(repo.info().index_entries, 8);
    assert_eq!(repo.check_chunks(&list), Err(RepositoryError::IndexCorrupt));
    assert_eq!(repo.check_index(true), Ok(()));
    assert_eq!(repo.info().index_entries, 4);
    assert_eq!(repo.check_index(false), Ok(()));
    assert_eq!(repo.check_chunks(&list), Err(RepositoryError::ChunkMissing(list[0].hash)));
    assert_eq!(repo.check_chunks(&list[4..].to_vec()), Ok(()));
}

#[test]
fn analysis_counts_the_chunks_in_use() {
    let config = Config {
        bundle_size: 4096,
        chunker: ChunkerSpec { algorithm: ChunkerAlgorithm::Fixed, bits: 10 },
        compression: None,
        encryption: None,
        hash: HashMethod::Blake2,
    };
    let session = Session { host: 1, pid: 2, now: 3 };
    let mut repo = Repository::create(config, "/r", session, NoCompressor).unwrap();
    let list = repo.put_stream(BundleMode::Data, &noise(6000, 11)).unwrap();
    repo.flush().unwrap();
    repo.forget_chunk(&list[1].hash);
    let usage = repo.analyze_usage().unwrap();
    assert_eq!(usage.len(), 2);
    assert_eq!(usage[0].id, 1);
    assert_eq!(usage[0].chunk_usage, vec![true, false, true, true]);
    assert_eq!(usage[0].get_used_size(), 3072);
    assert_eq!(usage[0].get_unused_size(), 1024);
    assert!(usage[0].get_usage_at_most(75));
    assert!(!usage[0].get_usage_at_most(74));
    assert_eq!(usage[1].chunk_usage, vec![true, true]);
    assert_eq!(usage[1].get_used_size(), 6000 - 4096);
    assert!(!usage[1].get_usage_at_most(99));
    assert!(usage[1].get_usage_at_most(100));
    assert_eq!(
        repo.analyze_bundle(77).err(),
        Some(RepositoryError::BundleIdMissing(77))
    );
}

#[test]
fn strategy_names() {
    let spec = ChunkerSpec { algorithm: ChunkerAlgorithm::FastCdc, bits: 16 };
    assert_eq!(spec.to_name(), b"fastcdc/16".to_vec());
    assert_eq!(ChunkerSpec::from_name(b"fastcdc/16"), Some(spec));
    assert_eq!(
        ChunkerSpec::from_name(b"fixed/8"),
        Some(ChunkerSpec { algorithm: ChunkerAlgorithm::Fixed, bits: 8 })
    );
    assert_eq!(
        ChunkerSpec::from_name(b"fixed/255"),
        Some(ChunkerSpec { algorithm: ChunkerAlgorithm::Fixed, bits: 255 })
    );
    for bad in [&b"fixed/256"[..], b"fixed/08", b"fixed/", b"fixed", b"rabin/8", b"fixed/1a", b""] {
        assert_eq!(ChunkerSpec::from_name(bad), None);
    }
    let brotli = zvault::Compression { method: zvault::CompressionMethod::Brotli, level: 3 };
    assert_eq!(brotli.to_name(), b"brotli/3".to_vec());
    assert_eq!(zvault::Compression::from_name(b"brotli/3"), Some(brotli));
    assert_eq!(
        zvault::Compression::from_name(b"lz4/100"),
        Some(zvault::Compression { method: zvault::CompressionMethod::Lz4, level: 100 })
    );
    assert_eq!(zvault::Compression::from_name(b"lz4/-1"), None);
    assert_eq!(zvault::Compression::from_name(b"zip/1"), None);
    assert_eq!(HashMethod::Blake2.name(), b"blake2".to_vec());
    assert_eq!(HashMethod::from_name(b"murmur3"), Some(HashMethod::Murmur3));
    assert_eq!(HashMethod::from_name(b"md5"), None);
    assert_eq!(zvault::config::encode_decimal(207), b"207".to_vec());
    assert_eq!(zvault::config::decode_decimal(b"0"), Some(0));
    assert_eq!(zvault::config::decode_decimal(b"00"), None);
}

#[test]
fn bundles_carry_the_time_that_was_set() {
    let config = Config {
        bundle_size: 4096,
        chunker: ChunkerSpec { algorithm: ChunkerAlgorithm::Fixed, bits: 10 },
        compression: None,
        encryption: None,
        hash: HashMethod::Blake2,
    };
    let session = Session { host: 1, pid: 2, now: 100 };
    let mut repo = Repository::create(config, "/r", session, NoCompressor).unwrap();
    repo.put_stream(BundleMode::Data, &noise(4096, 12)).unwrap();
    repo.set_time(200);
    repo.put_stream(BundleMode::Data, &noise(4096, 13)).unwrap();
    let stamps: Vec<u64> = repo.list_bundles().iter().map(|b| b.timestamp).collect();
    assert_eq!(stamps, vec![100, 200]);
    let lock = repo.lock(false).unwrap();
    assert_eq!(lock.file.timestamp, 200);
    repo.set_time(200 + STALE_AFTER + 1);
    assert_eq!(repo.lock(true), Err(RepositoryError::LockStale));
    assert_eq!(repo.break_stale_locks(false), 0);
    assert_eq!(repo.lock(true), Err(RepositoryError::LockStale));
    assert_eq!(repo.break_stale_locks(true), 1);
    assert!(repo.lock(true).is_ok());
}

#[test]
fn vacuum_deletes_nothing_if_an_entry_is_left_behind() {
    let config = Config {
        bundle_size: 4096,
        chunker: ChunkerSpec { algorithm: ChunkerAlgorithm::Fixed, bits: 10 },
        compression: None,
        encryption: None,
        hash: HashMethod::Blake2,
    };
    let session = Session { host: 1, pid: 2, now: 3 };
    let mut repo = Repository::create(config, "/r", session, NoCompressor).unwrap();
    let list = repo.put_stream(BundleMode::Data, &noise(4096, 14)).unwrap();
    repo.flush().unwrap();
    let (mut local, remote, codec) = repo.close();
    let stray = key(99);
    assert!(local.index.set(&stray, &Location { bundle: 1, chunk: 50 }));
    let mut repo = Repository::open(local, remote, session, codec).unwrap();
    assert_eq!(repo.check_index(false), Err(RepositoryError::IndexCorrupt));
    repo.set_time(4);
    assert_eq!(repo.vacuum(100, false, true).err(), Some(RepositoryError::IndexCorrupt));
    assert_eq!(repo.check_repository(false), Err(RepositoryError::DirtyRepository));
    assert_eq!(repo.locate(&stray), Some(Location { bundle: 1, chunk: 50 }));
    assert!(repo.get_bundle(&repo.list_bundles()[0].id).is_some());
    assert_eq!(repo.get_chunk(Location { bundle: 1, chunk: 0 }).unwrap().len(), 1024);
    assert!(repo.lock(true).is_ok());
    assert_eq!(repo.get_stream(&list).unwrap().len(), 4096);
}

#[test]
fn a_bundle_is_never_published_under_a_content_id_in_use() {
    let config = Config {
        bundle_size: 4096,
        chunker: ChunkerSpec { algorithm: ChunkerAlgorithm::Fixed, bits: 10 },
        compression: None,
        encryption: None,
        hash: HashMethod::Blake2,
    };
    let session = Session { host: 1, pid: 2, now: 3 };
    let mut repo = Repository::create(config, "/r", session, NoCompressor).unwrap();
    let data = noise(4096, 15);
    let list = repo.put_stream(BundleMode::Data, &data).unwrap();
    repo.flush().unwrap();
    assert_eq!(repo.vacuum(100, false, true).err(), Some(RepositoryError::BundleMapCorrupt));
    assert_eq!(repo.info().bundle_count, 1);
    assert_eq!(repo.check_index(false), Ok(()));
    assert_eq!(repo.get_stream(&list).unwrap(), data);
    repo.set_time(4);
    let report = repo.vacuum(100, false, true).unwrap();
    assert_eq!(report.rewrite_bundles, vec![1]);
    assert_eq!(repo.info().bundle_count, 1);
    assert_eq!(repo.get_stream(&list).unwrap(), data);
    assert_eq!(repo.locate(&list[0].hash).unwrap().bundle, 2);
}

#[test]
fn decoded_cache_forgets_the_least_recently_used() {
    let mut cache = zvault::DecodedCache::new(2);
    assert!(!cache.touch(&cid(1)));
    cache.put(cid(1), vec![1]);
    cache.put(cid(2), vec![2]);
    assert_eq!(cache.front(), &vec![2]);
    assert!(cache.touch(&cid(1)));
    assert_eq!(cache.front(), &vec![1]);
    cache.put(cid(3), vec![3]);
    assert_eq!(cache.len(), 2);
    assert!(!cache.touch(&cid(2)));
    assert!(cache.touch(&cid(1)));
    assert!(cache.touch(&cid(3)));
    assert_eq!(cache.front(), &vec![3]);
    let mut off = zvault::DecodedCache::new(0);
    assert!(off.is_off());
    off.put(cid(1), vec![1]);
    assert_eq!(off.len(), 0);
}

#[test]
fn cached_reads_agree_with_plain_reads() {
    let config = Config {
        bundle_size: 4096,
        chunker: ChunkerSpec { algorithm: ChunkerAlgorithm::Fixed, bits: 10 },
        compression: None,
        encryption: None,
        hash: HashMethod::Blake2,
    };
    let session = Session { host: 1, pid: 2, now: 3 };
    let mut repo = Repository::create(config, "/r", session, NoCompressor).unwrap();
    let list = repo.put_stream(BundleMode::Data, &noise(20_000, 16)).unwrap();
    repo.flush().unwrap();
    for capacity in [0usize, 1, 4] {
        let mut cache = zvault::DecodedCache::new(capacity);
        for entry in list.iter().chain(list.iter().rev()) {
            let loc = repo.locate(&entry.hash).unwrap();
            assert_eq!(repo.get_chunk_cached(&mut cache, loc), repo.get_chunk(loc));
            assert!(cache.len() <= capacity);
        }
    }
    let mut cache = zvault::DecodedCache::new(1);
    assert_eq!(
        repo.get_chunk_cached(&mut cache, Location { bundle: 40, chunk: 0 }),
        Err(RepositoryError::BundleIdMissing(40))
    );
    assert_eq!(
        repo.get_chunk_cached(&mut cache, Location { bundle: 1, chunk: 400 }),
        Err(RepositoryError::IndexCorrupt)
    );
}

#[test]
fn the_reference_is_the_latest_snapshot_of_the_same_source() {
    let snap = |timestamp: i64, host: &str, path: &str| zvault::BackupSource {
        timestamp,
        host: host.as_bytes().to_vec(),
        path: path.as_bytes().to_vec(),
    };
    let backups = vec![
        snap(10, "alpha", "/home"),
        snap(30, "beta", "/home"),
        snap(20, "alpha", "/home"),
        snap(40, "alpha", "/etc"),
        snap(20, "alpha", "/home"),
        snap(15, "alpha", "/home"),
    ];
    assert_eq!(find_reference_backup(&backups, b"alpha", b"/home"), Some(4));
    assert_eq!(find_reference_backup(&backups, b"beta", b"/home"), Some(1));
    assert_eq!(find_reference_backup(&backups, b"alpha", b"/etc"), Some(3));
    assert_eq!(find_reference_backup(&backups, b"beta", b"/etc"), None);
    assert_eq!(find_reference_backup(&backups, b"alph", b"/home"), None);
    assert_eq!(find_reference_backup(&Vec::new(), b"alpha", b"/home"), None);
}

#[test]
fn a_public_key_belongs_to_its_secret_key_alone() {
    let (pk, sk) = sodiumoxide::crypto::box_::gen_keypair();
    let (other_pk, other_sk) = sodiumoxide::crypto::box_::gen_keypair();
    let public = zvault::PublicKey { bytes: pk.0 };
    let secret = zvault::SecretKey { bytes: sk.0 };
    assert!(zvault::belongs_to(&public, &secret));
    assert!(!zvault::belongs_to(&zvault::PublicKey { bytes: other_pk.0 }, &secret));
    assert!(!zvault::belongs_to(&public, &zvault::SecretKey { bytes: other_sk.0 }));
    assert!(!zvault::belongs_to(&zvault::PublicKey { bytes: sk.0 }, &secret));
}

#[test]
fn index_filter_keeps_what_the_predicate_wants() {
    let mut index = zvault::Index::new();
    for n in 0..100u32 {
        assert!(index.set(&key(n as u64), &Location { bundle: n % 5, chunk: n }));
    }
    index.filter(|_, loc| loc.bundle != 2 && loc.chunk < 90);
    assert_eq!(index.len(), 72);
    for n in 0..100u32 {
        let kept = n % 5 != 2 && n < 90;
        assert_eq!(index.get(&key(n as u64)), kept.then_some(Location { bundle: n % 5, chunk: n }));
    }
    index.filter(|_, _| true);
    assert_eq!(index.len(), 72);
    index.filter(|_, _| false);
    assert_eq!(index.len(), 0);
    assert!(index.set(&key(7), &Location { bundle: 1, chunk: 1 }));
    assert_eq!(index.len(), 1);
}
