use zvault::bundle_db::BundleDb;
use zvault::hash;
use zvault::{
    BundleMode, ChunkEntry, ChunkerAlgorithm, ChunkerSpec, Compression, CompressionMethod,
    Compressor, Config, HashMethod, Location, LockFile, NoCompressor, PublicKey, Repository,
    RepositoryError, SecretKey, Session,
};

fn session() -> Session {
    Session { host: 7, pid: 4242, now: 1_500_000_000 }
}

fn plain_config(bundle_size: usize, algorithm: ChunkerAlgorithm, bits: u8) -> Config {
    Config {
        bundle_size,
        chunker: ChunkerSpec { algorithm, bits },
        compression: None,
        encryption: None,
        hash: HashMethod::Blake2,
    }
}

fn noise(len: usize, seed: u64) -> Vec<u8> {
    let mut state = seed;
    let mut out = Vec::with_capacity(len);
    for _ in 0..len {
        state = state.wrapping_mul(6364136223846793005).wrapping_add(1442695040888963407);
        out.push((state >> 33) as u8);
    }
    out
}

/// A compressor for tests: it writes a marker byte and the data back to front.
struct Mirror;

impl Compressor for Mirror {
    fn compress(&self, _method: &Compression, data: &Vec<u8>) -> Option<Vec<u8>> {
        let mut out = vec![0xa5u8];
        out.extend(data.iter().rev());
        Some(out)
    }

    fn decompress(&self, _method: &Compression, data: &Vec<u8>) -> Option<Vec<u8>> {
        if data.first() != Some(&0xa5u8) {
            return None;
        }
        Some(data[1..].iter().rev().cloned().collect())
    }
}

#[test]
fn empty_create_then_open_reports_nothing() {
    let repo = Repository::create(Config::default(), "/srv/x", session(), NoCompressor).unwrap();
    let (local, remote, codec) = repo.close();
    let repo = Repository::open(local, remote, session(), codec).unwrap();
    let info = repo.info();
    assert_eq!(info.bundle_count, 0);
    assert_eq!(info.chunk_count, 0);
    assert_eq!(info.raw_data_size, 0);
    assert_eq!(info.encoded_data_size, 0);
    assert_eq!(info.index_entries, 0);
    assert_eq!(repo.get_config(), Config::default());
}

#[test]
fn create_refuses_a_relative_remote() {
    let r = Repository::create(Config::default(), "srv/x", session(), NoCompressor);
    assert!(matches!(r, Err(RepositoryError::ConfigInvalid)));
    let r = Repository::create(Config::default(), "", session(), NoCompressor);
    assert!(matches!(r, Err(RepositoryError::ConfigInvalid)));
}

#[test]
fn an_unusable_configuration_is_refused_when_it_is_used() {
    let mut config = Config::default();
    config.chunker.bits = 3;
    let mut repo = Repository::create(config, "/srv/x", session(), NoCompressor).unwrap();
    assert_eq!(repo.get_config(), config);
    assert_eq!(
        repo.put_stream(BundleMode::Data, &noise(100, 1)),
        Err(RepositoryError::ConfigInvalid)
    );
    assert_eq!(repo.info().index_entries, 0);
    let (local, remote, codec) = repo.close();
    let r = Repository::open(local, remote, session(), codec);
    assert!(matches!(r, Err(RepositoryError::ConfigInvalid)));
    let mut config = Config::default();
    config.bundle_size = 0;
    let mut repo = Repository::create(config, "/srv/x", session(), NoCompressor).unwrap();
    assert_eq!(
        repo.put_stream(BundleMode::Data, &noise(100, 1)),
        Err(RepositoryError::ConfigInvalid)
    );
}

#[test]
fn a_reopened_empty_repository_starts_at_the_first_ids() {
    let config = plain_config(1 << 20, ChunkerAlgorithm::Fixed, 10);
    let repo = Repository::create(config, "/srv/x", session(), NoCompressor).unwrap();
    let (local, remote, codec) = repo.close();
    let mut repo = Repository::open(local, remote, session(), codec).unwrap();
    assert_eq!(repo.next_free_bundle_id(), Some(3));
    let meta = repo.put_chunk(BundleMode::Meta, &noise(100, 2)).unwrap();
    let data = repo.put_chunk(BundleMode::Data, &noise(100, 3)).unwrap();
    assert_eq!(meta, Location { bundle: 1, chunk: 0 });
    assert_eq!(data, Location { bundle: 2, chunk: 0 });
    assert!(repo.list_bundles().is_empty());
}

#[test]
fn an_empty_stream_reads_back_empty() {
    let config = plain_config(16 * 1024, ChunkerAlgorithm::Fixed, 10);
    let mut repo = Repository::create(config, "/srv/x", session(), NoCompressor).unwrap();
    assert_eq!(repo.put_stream(BundleMode::Data, &[]), Ok(Vec::new()));
    assert_eq!(repo.get_stream(&Vec::new()), Ok(Vec::new()));
    let unknown = ChunkEntry { hash: hash::Hash { high: 1, low: 2 }, len: 5 };
    assert_eq!(
        repo.get_stream(&vec![unknown]),
        Err(RepositoryError::ChunkMissing(unknown.hash))
    );
}

#[test]
fn a_stream_that_fits_the_open_bundle_publishes_nothing() {
    let config = plain_config(1 << 20, ChunkerAlgorithm::Fixed, 10);
    let mut repo = Repository::create(config, "/srv/x", session(), NoCompressor).unwrap();
    let data = noise(10 * 1024, 77);
    let list = repo.put_stream(BundleMode::Data, &data).unwrap();
    assert_eq!(list.len(), 10);
    assert_eq!(repo.info().bundle_count, 0);
    assert_eq!(repo.info().index_entries, 0);
    repo.flush().unwrap();
    assert_eq!(repo.info().bundle_count, 1);
    assert_eq!(repo.get_stream(&list).unwrap(), data);
}

#[test]
fn a_lock_names_its_holder() {
    let config = plain_config(16 * 1024, ChunkerAlgorithm::Fixed, 10);
    let mut repo = Repository::create(config, "/srv/x", session(), NoCompressor).unwrap();
    let handle = repo.lock(false).unwrap();
    let want = LockFile { host: 7, pid: 4242, timestamp: 1_500_000_000, exclusive: false };
    assert_eq!(handle.file, want);
    let (_, remote, _) = repo.close();
    assert_eq!(remote.locks, vec![want]);
}

#[test]
fn vacuum_deletes_what_it_rewrote() {
    let config = plain_config(16 * 1024, ChunkerAlgorithm::Fixed, 10);
    let mut repo = Repository::create(config, "/srv/x", session(), NoCompressor).unwrap();
    let data = noise(32 * 1024, 90);
    let list = repo.put_stream(BundleMode::Data, &data).unwrap();
    repo.flush().unwrap();
    let before: Vec<_> = repo.list_bundles().iter().map(|b| b.id).collect();
    assert_eq!(before.len(), 2);
    for entry in &list[1..16] {
        assert!(repo.forget_chunk(&entry.hash));
    }
    repo.set_time(1_500_000_100);
    let report = repo.vacuum(50, false, true).unwrap();
    assert_eq!(report.rewrite_bundles.len(), 1);
    let after: Vec<_> = repo.list_bundles().iter().map(|b| b.id).collect();
    assert_eq!(after.len(), 2);
    assert!(!after.contains(&before[0]));
    assert!(after.contains(&before[1]));
    assert_eq!(repo.get_bundle(&before[0]), None);
    assert_eq!(repo.get_chunk_by_hash(&list[0].hash).unwrap(), data[..1024].to_vec());
    assert_eq!(repo.get_chunk_by_hash(&list[20].hash).unwrap(), data[20 * 1024..21 * 1024].to_vec());
    assert_eq!(
        repo.get_chunk_by_hash(&list[5].hash),
        Err(RepositoryError::ChunkMissing(list[5].hash))
    );
    let (local, remote, _) = repo.close();
    assert!(!local.dirty);
    assert!(remote.bundles.iter().all(|b| b.info.id != before[0]));
    assert_eq!(remote.bundles.len(), 2);
}

#[test]
fn check_without_checks_asks_only_for_a_clean_repository() {
    let config = plain_config(16 * 1024, ChunkerAlgorithm::Fixed, 10);
    let mut repo = Repository::create(config, "/srv/x", session(), NoCompressor).unwrap();
    assert_eq!(repo.check(false, false, false, false), Ok(()));
    repo.set_dirty(true);
    assert_eq!(repo.check(false, false, false, false), Err(RepositoryError::DirtyRepository));
    assert_eq!(repo.check(false, false, false, true), Ok(()));
    assert_eq!(repo.check(false, false, false, false), Ok(()));
}

#[test]
fn a_gone_bundle_frees_its_small_id() {
    let config = plain_config(16 * 1024, ChunkerAlgorithm::Fixed, 10);
    let mut repo = Repository::create(config, "/srv/x", session(), NoCompressor).unwrap();
    let data = noise(32 * 1024, 5);
    let list = repo.put_stream(BundleMode::Data, &data).unwrap();
    repo.flush().unwrap();
    let first = repo.locate(&list[0].hash).unwrap();
    let second = repo.locate(&list[20].hash).unwrap();
    assert_ne!(first.bundle, second.bundle);
    let (local, mut remote, codec) = repo.close();
    remote.bundles.remove(0);
    let repo = Repository::open(local, remote, session(), codec).unwrap();
    assert_eq!(repo.get_chunk(first), Err(RepositoryError::BundleIdMissing(first.bundle)));
    assert_eq!(repo.get_chunk(second).unwrap(), data[20 * 1024..21 * 1024].to_vec());
    assert_eq!(repo.locate(&list[0].hash), None);
}

#[test]
fn single_file_dedup() {
    let config = plain_config(1 << 18, ChunkerAlgorithm::FastCdc, 16);
    let mut repo = Repository::create(config, "/srv/x", session(), NoCompressor).unwrap();
    let zeros = vec![0u8; 1 << 20];
    let first = repo.put_stream(BundleMode::Data, &zeros).unwrap();
    repo.flush().unwrap();
    let before = repo.info();
    assert!(before.chunk_count > 0);
    assert!(before.raw_data_size > 0 && before.raw_data_size <= 1 << 20);
    let second = repo.put_stream(BundleMode::Data, &zeros).unwrap();
    repo.flush().unwrap();
    let after = repo.info();
    assert_eq!(first, second);
    assert_eq!(after.chunk_count, before.chunk_count);
    assert_eq!(after.bundle_count, before.bundle_count);
    assert_eq!(after.raw_data_size, before.raw_data_size);
    assert_eq!(after.index_entries, before.index_entries);
    assert_eq!(repo.get_stream(&first).unwrap(), zeros);
}

#[test]
fn vacuum_reclaims_sparse_bundles() {
    let config = plain_config(16 * 1024, ChunkerAlgorithm::Fixed, 10);
    let mut repo = Repository::create(config, "/srv/x", session(), NoCompressor).unwrap();
    let data = noise(160 * 1024, 1);
    let list = repo.put_stream(BundleMode::Data, &data).unwrap();
    repo.flush().unwrap();
    assert_eq!(list.len(), 160);
    let before = repo.info();
    assert_eq!(before.bundle_count, 10);
    assert_eq!(before.encoded_data_size, 160 * 1024);
    let first_five: Vec<u32> = (0..80).map(|k| repo.locate(&list[k].hash).unwrap().bundle).collect();
    let mut ids = first_five.clone();
    ids.dedup();
    assert_eq!(ids, vec![1, 2, 3, 4, 5]);
    let mut kept: Vec<ChunkEntry> = Vec::new();
    for (k, entry) in list.iter().enumerate() {
        if k < 80 && k % 5 != 0 {
            assert!(repo.forget_chunk(&entry.hash));
        } else {
            kept.push(*entry);
        }
    }
    let report = repo.vacuum(50, false, true).unwrap();
    assert_eq!(report.rewrite_bundles, vec![1, 2, 3, 4, 5]);
    assert_eq!(report.reclaim_space, 5 * 16 * 1024 * 4 / 5);
    for id in 1..=5u32 {
        assert_eq!(
            repo.get_chunk(Location { bundle: id, chunk: 0 }),
            Err(RepositoryError::BundleIdMissing(id))
        );
    }
    let after = repo.info();
    assert_eq!(after.bundle_count, 6);
    let reclaimed = before.encoded_data_size - after.encoded_data_size;
    assert!(reclaimed * 10 >= before.encoded_data_size * 4);
    assert_eq!(repo.check_index(false), Ok(()));
    assert_eq!(repo.check_bundles(true), Ok(()));
    assert_eq!(repo.check_chunks(&kept), Ok(()));
    let mut expected = Vec::new();
    for (k, chunk) in data.chunks(1024).enumerate() {
        if !(k < 80 && k % 5 != 0) {
            expected.extend_from_slice(chunk);
        }
    }
    assert_eq!(repo.get_stream(&kept).unwrap(), expected);
    for entry in &kept {
        let loc = repo.locate(&entry.hash).unwrap();
        assert!(loc.bundle > 5);
    }
}

#[test]
fn vacuum_without_force_changes_nothing() {
    let config = plain_config(16 * 1024, ChunkerAlgorithm::Fixed, 10);
    let mut repo = Repository::create(config, "/srv/x", session(), NoCompressor).unwrap();
    let data = noise(32 * 1024, 2);
    let list = repo.put_stream(BundleMode::Data, &data).unwrap();
    repo.flush().unwrap();
    for entry in list.iter().take(16) {
        repo.forget_chunk(&entry.hash);
    }
    let before = repo.info();
    let report = repo.vacuum(0, false, false).unwrap();
    assert_eq!(report.rewrite_bundles, vec![1]);
    assert_eq!(report.reclaim_space, 16 * 1024);
    assert_eq!(repo.info(), before);
    let report = repo.vacuum(0, false, true).unwrap();
    assert_eq!(report.rewrite_bundles, vec![1]);
    assert_eq!(repo.info().bundle_count, 1);
}

#[test]
fn gone_bundle_recovery() {
    let config = plain_config(16 * 1024, ChunkerAlgorithm::Fixed, 10);
    let mut repo = Repository::create(config, "/srv/x", session(), NoCompressor).unwrap();
    let data = noise(48 * 1024, 3);
    let list = repo.put_stream(BundleMode::Data, &data).unwrap();
    repo.flush().unwrap();
    let (local, mut remote, codec) = repo.close();
    assert_eq!(remote.bundles.len(), 3);
    let lost = remote.bundles.remove(1);
    let cache: Vec<_> = local.cache.iter().map(|m| m.copy()).collect();
    let rest: Vec<_> = remote.bundles.iter().map(|b| b.copy()).collect();
    let (_, new, gone) = BundleDb::open(cache, rest).unwrap();
    assert!(new.is_empty());
    assert_eq!(gone, vec![lost.info]);
    let mut repo = Repository::open(local, remote, session(), codec).unwrap();
    assert_eq!(repo.info().bundle_count, 2);
    assert_eq!(repo.info().index_entries, 32);
    assert_eq!(repo.check_index(false), Ok(()));
    assert_eq!(repo.get_bundle(&lost.info.id), None);
    let mut missing = 0;
    for entry in &list {
        match repo.get_chunk_by_hash(&entry.hash) {
            Ok(bytes) => assert_eq!(bytes.len(), 1024),
            Err(e) => {
                assert_eq!(e, RepositoryError::ChunkMissing(entry.hash));
                missing += 1;
            }
        }
    }
    assert_eq!(missing, 16);
}

#[test]
fn new_remote_bundle_is_taken_up() {
    let config = plain_config(16 * 1024, ChunkerAlgorithm::Fixed, 10);
    let mut writer = Repository::create(config, "/srv/x", session(), NoCompressor).unwrap();
    let data = noise(32 * 1024, 4);
    let list = writer.put_stream(BundleMode::Data, &data).unwrap();
    writer.flush().unwrap();
    let (_, remote, _) = writer.close();
    let fresh = Repository::create(config, "/srv/x", session(), NoCompressor).unwrap();
    let (local, _, codec) = fresh.close();
    let mut reader = Repository::open(local, remote, session(), codec).unwrap();
    assert_eq!(reader.info().bundle_count, 2);
    assert_eq!(reader.info().index_entries, 32);
    assert_eq!(reader.check_index(false), Ok(()));
    assert_eq!(reader.get_stream(&list).unwrap(), data);
}

#[test]
fn encryption_round_trip() {
    let (pk, sk) = sodiumoxide::crypto::box_::gen_keypair();
    let public = PublicKey { bytes: pk.0 };
    let secret = SecretKey { bytes: sk.0 };
    let config = plain_config(64 * 1024, ChunkerAlgorithm::FastCdc, 10);
    let mut repo = Repository::create(config, "/srv/x", session(), NoCompressor).unwrap();
    repo.register_key(public, secret).unwrap();
    assert!(repo.set_encryption(Some(&public)));
    repo.save_config().unwrap();
    let data = noise(100 * 1024, 5);
    let list = repo.put_stream(BundleMode::Data, &data).unwrap();
    repo.flush().unwrap();
    let (local, remote, codec) = repo.close();
    for bundle in &remote.bundles {
        assert_eq!(bundle.info.encoded_size, bundle.info.raw_size + 48);
        assert_eq!(bundle.info.encryption.unwrap().key, public);
    }
    assert_eq!(local.keys.len(), 1);
    let repo = Repository::open(local, remote, session(), codec).unwrap();
    assert_eq!(repo.get_config().encryption.unwrap().key, public);
    assert_eq!(repo.get_stream(&list).unwrap(), data);
    let (mut local, remote, codec) = repo.close();
    local.keys.clear();
    let mut repo = Repository::open(local, remote, session(), codec).unwrap();
    assert_eq!(repo.get_stream(&list), Err(RepositoryError::KeyMissing(public)));
    assert!(repo.info().bundle_count >= 1);
    assert_eq!(repo.check_index(false), Ok(()));
    assert_eq!(repo.check_bundles(false), Ok(()));
    assert!(repo.analyze_usage().is_ok());
}

#[test]
fn wrong_secret_key_fails_to_decrypt() {
    let (pk, _) = sodiumoxide::crypto::box_::gen_keypair();
    let (_, other) = sodiumoxide::crypto::box_::gen_keypair();
    let public = PublicKey { bytes: pk.0 };
    let config = plain_config(64 * 1024, ChunkerAlgorithm::Fixed, 10);
    let mut repo = Repository::create(config, "/srv/x", session(), NoCompressor).unwrap();
    repo.register_key(public, SecretKey { bytes: other.0 }).unwrap();
    repo.set_encryption(Some(&public));
    let list = repo.put_stream(BundleMode::Data, &noise(4096, 6)).unwrap();
    repo.flush().unwrap();
    assert_eq!(repo.get_stream(&list), Err(RepositoryError::Decrypt));
}

#[test]
fn combine_small_bundles() {
    let target = 64 * 1024;
    let config = plain_config(target, ChunkerAlgorithm::Fixed, 10);
    let mut repo = Repository::create(config, "/srv/x", session(), NoCompressor).unwrap();
    let mut all = Vec::new();
    let mut lists = Vec::new();
    for part in 0..4u64 {
        let data = noise(target / 8, 10 + part);
        lists.extend(repo.put_stream(BundleMode::Data, &data).unwrap());
        repo.flush().unwrap();
        all.extend(data);
    }
    let before = repo.info();
    assert_eq!(before.bundle_count, 4);
    let report = repo.vacuum(0, true, true).unwrap();
    assert_eq!(report.rewrite_bundles.len(), 4);
    assert_eq!(report.reclaim_space, 0);
    let after = repo.info();
    assert!(after.bundle_count == 1 || after.bundle_count == 2);
    for bundle in repo.list_bundles() {
        assert!(bundle.encoded_size * 2 >= target / after.bundle_count);
    }
    assert_eq!(after.bundle_count, 1);
    assert_eq!(after.encoded_data_size, (target / 2) as u64);
    assert_eq!(repo.get_stream(&lists).unwrap(), all);
    assert_eq!(repo.check_index(false), Ok(()));
}

#[test]
fn a_lone_small_bundle_is_not_combined() {
    let target = 64 * 1024;
    let config = plain_config(target, ChunkerAlgorithm::Fixed, 10);
    let mut repo = Repository::create(config, "/srv/x", session(), NoCompressor).unwrap();
    repo.put_stream(BundleMode::Data, &noise(4096, 20)).unwrap();
    repo.put_stream(BundleMode::Meta, &noise(4096, 21)).unwrap();
    repo.flush().unwrap();
    let report = repo.vacuum(0, true, true).unwrap();
    assert!(report.rewrite_bundles.is_empty());
    assert_eq!(repo.info().bundle_count, 2);
}

#[test]
fn round_trip_with_a_compressor() {
    let mut config = plain_config(32 * 1024, ChunkerAlgorithm::FastCdc, 8);
    config.compression = Some(Compression { method: CompressionMethod::Brotli, level: 3 });
    let mut repo = Repository::create(config, "/srv/x", session(), Mirror).unwrap();
    let data = noise(200 * 1024, 30);
    let list = repo.put_stream(BundleMode::Data, &data).unwrap();
    repo.flush().unwrap();
    for bundle in repo.list_bundles() {
        assert_eq!(bundle.encoded_size, bundle.raw_size + 1);
    }
    assert_eq!(repo.get_stream(&list).unwrap(), data);
    assert_eq!(repo.check_bundles(true), Ok(()));
}

#[test]
fn compression_without_a_compressor_fails() {
    let mut repo =
        Repository::create(Config::default(), "/srv/x", session(), NoCompressor).unwrap();
    repo.put_stream(BundleMode::Data, &noise(4096, 31)).unwrap();
    assert_eq!(repo.flush(), Err(RepositoryError::Compress));
    assert_eq!(repo.info().bundle_count, 0);
}

#[test]
fn chunks_are_not_indexed_before_their_bundle_is_closed() {
    let config = plain_config(1 << 20, ChunkerAlgorithm::Fixed, 10);
    let mut repo = Repository::create(config, "/srv/x", session(), NoCompressor).unwrap();
    let data = noise(1024, 40);
    let loc = repo.put_chunk(BundleMode::Data, &data).unwrap();
    assert_eq!(loc, Location { bundle: 1, chunk: 0 });
    assert_eq!(repo.info().index_entries, 0);
    assert_eq!(repo.get_chunk(loc), Err(RepositoryError::BundleIdMissing(1)));
    let again = repo.put_chunk(BundleMode::Data, &data).unwrap();
    assert_eq!(again, Location { bundle: 1, chunk: 1 });
    repo.flush().unwrap();
    let hash = HashMethod::Blake2.hash(&data);
    assert_eq!(repo.locate(&hash), Some(Location { bundle: 1, chunk: 1 }));
    assert_eq!(repo.get_chunk(loc).unwrap(), data);
    assert_eq!(repo.get_chunk(again).unwrap(), data);
    let third = repo.put_chunk(BundleMode::Data, &data).unwrap();
    assert_eq!(third, Location { bundle: 1, chunk: 1 });
    assert_eq!(repo.info().chunk_count, 2);
}

#[test]
fn data_and_meta_never_share_a_bundle() {
    let config = plain_config(1 << 20, ChunkerAlgorithm::Fixed, 10);
    let mut repo = Repository::create(config, "/srv/x", session(), NoCompressor).unwrap();
    let a = repo.put_chunk(BundleMode::Data, &noise(100, 41)).unwrap();
    let b = repo.put_chunk(BundleMode::Meta, &noise(100, 42)).unwrap();
    assert_eq!(a, Location { bundle: 1, chunk: 0 });
    assert_eq!(b, Location { bundle: 0, chunk: 0 });
    repo.flush().unwrap();
    let bundles = repo.list_bundles();
    assert_eq!(bundles.len(), 2);
    assert_eq!(bundles[0].mode, BundleMode::Data);
    assert_eq!(bundles[1].mode, BundleMode::Meta);
    assert_eq!(repo.next_free_bundle_id(), Some(4));
}

#[test]
fn rebuild_index_restores_every_entry() {
    let config = plain_config(16 * 1024, ChunkerAlgorithm::Fixed, 10);
    let mut repo = Repository::create(config, "/srv/x", session(), NoCompressor).unwrap();
    let data = noise(40 * 1024, 50);
    let list = repo.put_stream(BundleMode::Data, &data).unwrap();
    repo.flush().unwrap();
    for entry in &list {
        repo.forget_chunk(&entry.hash);
    }
    assert_eq!(repo.info().index_entries, 0);
    assert_eq!(
        repo.get_stream(&list),
        Err(RepositoryError::ChunkMissing(list[0].hash))
    );
    assert_eq!(repo.rebuild_index(), Ok(()));
    assert_eq!(repo.info().index_entries, 40);
    assert_eq!(repo.get_stream(&list).unwrap(), data);
    assert_eq!(repo.check_index(false), Ok(()));
}

#[test]
fn a_second_exclusive_lock_is_busy() {
    let config = plain_config(16 * 1024, ChunkerAlgorithm::Fixed, 10);
    let mut repo = Repository::create(config, "/srv/x", session(), NoCompressor).unwrap();
    let first = repo.lock(true).unwrap();
    assert_eq!(repo.lock(true), Err(RepositoryError::LockBusy));
    assert_eq!(repo.lock(false), Err(RepositoryError::LockBusy));
    assert_eq!(repo.vacuum(0, false, true).err(), Some(RepositoryError::LockBusy));
    assert!(repo.unlock(first));
    let shared = repo.lock(false).unwrap();
    let other = repo.lock(false).unwrap();
    assert_eq!(repo.lock(true), Err(RepositoryError::LockBusy));
    assert!(repo.unlock(shared));
    assert!(repo.unlock(other));
    assert!(!repo.unlock(other));
    assert!(repo.vacuum(0, false, true).is_ok());
}

#[test]
fn dirty_repository_is_reported_until_checked() {
    let config = plain_config(16 * 1024, ChunkerAlgorithm::Fixed, 10);
    let mut repo = Repository::create(config, "/srv/x", session(), NoCompressor).unwrap();
    repo.set_dirty(true);
    assert_eq!(repo.check_repository(false), Err(RepositoryError::DirtyRepository));
    assert_eq!(repo.check(true, true, true, false), Err(RepositoryError::DirtyRepository));
    assert_eq!(repo.check(true, true, true, true), Ok(()));
    assert_eq!(repo.check_repository(false), Ok(()));
}

#[test]
fn hash_entry_type_is_plain_data() {
    let h = hash::Hash { high: 1, low: 2 };
    assert_eq!(h, hash::Hash { high: 1, low: 2 });
    assert_ne!(h, hash::Hash { high: 2, low: 1 });
}

#[test]
fn reopening_after_a_flush_keeps_everything() {
    let config = plain_config(16 * 1024, ChunkerAlgorithm::FastCdc, 10);
    let mut repo = Repository::create(config, "/srv/x", session(), NoCompressor).unwrap();
    let data = noise(100 * 1024, 60);
    let list = repo.put_stream(BundleMode::Data, &data).unwrap();
    repo.put_stream(BundleMode::Meta, &noise(5000, 61)).unwrap();
    repo.flush().unwrap();
    let before = repo.info();
    let next = repo.next_free_bundle_id();
    let (local, remote, codec) = repo.close();
    assert_eq!(local.bundle_map.len(), before.bundle_count);
    assert_eq!(local.cache.len(), before.bundle_count);
    assert_eq!(remote.bundles.len(), before.bundle_count);
    assert!(!local.dirty);
    let mut repo = Repository::open(local, remote, session(), codec).unwrap();
    assert_eq!(repo.info(), before);
    assert!(repo.next_free_bundle_id() >= next);
    assert_eq!(repo.get_stream(&list).unwrap(), data);
    assert_eq!(repo.check(true, true, true, false), Ok(()));
}

#[test]
fn closing_without_a_flush_discards_the_open_bundles() {
    let config = plain_config(16 * 1024, ChunkerAlgorithm::Fixed, 10);
    let mut repo = Repository::create(config, "/srv/x", session(), NoCompressor).unwrap();
    let kept = repo.put_stream(BundleMode::Data, &noise(16 * 1024, 62)).unwrap();
    repo.flush().unwrap();
    let saved = repo.info();
    let lost = repo.put_stream(BundleMode::Data, &noise(3000, 63)).unwrap();
    assert_eq!(repo.info(), saved);
    let (local, remote, codec) = repo.close();
    assert_eq!(remote.bundles.len(), 1);
    let mut repo = Repository::open(local, remote, session(), codec).unwrap();
    assert_eq!(repo.info(), saved);
    assert_eq!(repo.get_stream(&kept).unwrap().len(), 16 * 1024);
    assert_eq!(
        repo.get_stream(&lost),
        Err(RepositoryError::ChunkMissing(lost[0].hash))
    );
    assert_eq!(repo.check_index(false), Ok(()));
}

#[test]
fn a_lock_held_on_the_remote_excludes_a_second_opener() {
    let config = plain_config(16 * 1024, ChunkerAlgorithm::Fixed, 10);
    let mut first = Repository::create(config, "/srv/x", session(), NoCompressor).unwrap();
    first.put_stream(BundleMode::Data, &noise(16 * 1024, 64)).unwrap();
    first.flush().unwrap();
    let held = first.lock(true).unwrap();
    let (local, remote, codec) = first.close();
    assert_eq!(remote.locks, vec![held.file]);
    let other = Session { host: 8, pid: 1, now: session().now + 5 };
    let mut second = Repository::open(local, remote, other, codec).unwrap();
    assert_eq!(second.lock(true), Err(RepositoryError::LockBusy));
    assert_eq!(second.lock(false), Err(RepositoryError::LockBusy));
    assert_eq!(second.vacuum(0, false, false).err(), Some(RepositoryError::LockBusy));
    assert_eq!(second.info().bundle_count, 1);
    assert!(second.unlock(held));
    assert!(second.vacuum(0, false, false).is_ok());
}

#[test]
fn vacuum_keeps_the_bytes_of_sealed_chunks() {
    let (pk, sk) = sodiumoxide::crypto::box_::gen_keypair();
    let public = PublicKey { bytes: pk.0 };
    let secret = SecretKey { bytes: sk.0 };
    assert!(zvault::belongs_to(&public, &secret));
    let config = plain_config(16 * 1024, ChunkerAlgorithm::Fixed, 10);
    let mut repo = Repository::create(config, "/srv/x", session(), NoCompressor).unwrap();
    repo.register_key(public, secret).unwrap();
    assert!(repo.set_encryption(Some(&public)));
    let data = noise(32 * 1024, 91);
    let list = repo.put_stream(BundleMode::Data, &data).unwrap();
    repo.flush().unwrap();
    for entry in &list[4..16] {
        assert!(repo.forget_chunk(&entry.hash));
    }
    repo.set_time(1_500_000_200);
    let report = repo.vacuum(50, false, true).unwrap();
    assert_eq!(report.rewrite_bundles.len(), 1);
    for k in (0..4).chain(16..32) {
        assert_eq!(
            repo.get_chunk_by_hash(&list[k].hash).unwrap(),
            data[k * 1024..(k + 1) * 1024].to_vec()
        );
    }
    let (local, remote, codec) = repo.close();
    assert!(remote.bundles.iter().all(|b| b.info.encryption.is_some()));
    let repo = Repository::open(local, remote, session(), codec).unwrap();
    assert_eq!(repo.get_chunk_by_hash(&list[2].hash).unwrap(), data[2048..3072].to_vec());
    assert_eq!(repo.get_chunk_by_hash(&list[30].hash).unwrap(), data[30 * 1024..31 * 1024].to_vec());
}

#[test]
fn a_forced_vacuum_deletes_unused_bundles_without_writing() {
    let config = plain_config(16 * 1024, ChunkerAlgorithm::Fixed, 10);
    let mut repo = Repository::create(config, "/srv/x", session(), NoCompressor).unwrap();
    let data = noise(32 * 1024, 93);
    let list = repo.put_stream(BundleMode::Data, &data).unwrap();
    repo.flush().unwrap();
    let before: Vec<_> = repo.list_bundles().iter().map(|b| b.id).collect();
    assert_eq!(before.len(), 2);
    for entry in &list[0..16] {
        assert!(repo.forget_chunk(&entry.hash));
    }
    let report = repo.vacuum(0, false, true).unwrap();
    assert_eq!(report.rewrite_bundles.len(), 1);
    assert_eq!(report.reclaim_space, 16 * 1024);
    let after: Vec<_> = repo.list_bundles().iter().map(|b| b.id).collect();
    assert_eq!(after, vec![before[1]]);
    assert_eq!(repo.get_stream(&list[16..].to_vec()).unwrap(), data[16 * 1024..].to_vec());
    assert_eq!(repo.check_repository(false), Ok(()));
}

#[test]
fn a_known_stream_is_not_stored_again() {
    let config = plain_config(16 * 1024, ChunkerAlgorithm::FastCdc, 10);
    let mut repo = Repository::create(config, "/srv/x", session(), NoCompressor).unwrap();
    let data = noise(40 * 1024, 94);
    let first = repo.put_stream(BundleMode::Data, &data).unwrap();
    repo.flush().unwrap();
    let info = repo.info();
    let next = repo.next_free_bundle_id();
    let second = repo.put_stream(BundleMode::Meta, &data).unwrap();
    assert_eq!(first, second);
    assert_eq!(repo.info(), info);
    assert_eq!(repo.next_free_bundle_id(), next);
    repo.flush().unwrap();
    assert_eq!(repo.info(), info);
    assert_eq!(repo.next_free_bundle_id(), next);
}

#[test]
fn a_closed_repository_opens_again_with_the_same_bundle_map() {
    let config = plain_config(16 * 1024, ChunkerAlgorithm::Fixed, 10);
    let mut repo = Repository::create(config, "/srv/x", session(), NoCompressor).unwrap();
    let data = noise(48 * 1024, 95);
    let list = repo.put_stream(BundleMode::Data, &data).unwrap();
    repo.flush().unwrap();
    let places: Vec<_> = list.iter().map(|e| repo.locate(&e.hash)).collect();
    let (local, remote, codec) = repo.close();
    let rows = local.bundle_map.clone();
    let repo = Repository::open(local, remote, session(), codec).unwrap();
    let again: Vec<_> = list.iter().map(|e| repo.locate(&e.hash)).collect();
    assert_eq!(places, again);
    let (local, _, _) = repo.close();
    assert_eq!(local.bundle_map, rows);
}

#[test]
fn republishing_the_same_bundle_at_the_same_time_is_refused() {
    let config = plain_config(16 * 1024, ChunkerAlgorithm::Fixed, 10);
    let mut repo = Repository::create(config, "/srv/x", session(), NoCompressor).unwrap();
    let data = noise(16 * 1024, 96);
    let list = repo.put_stream(BundleMode::Data, &data).unwrap();
    repo.flush().unwrap();
    assert_eq!(repo.info().bundle_count, 1);
    assert_eq!(repo.check(true, true, true, false), Ok(()));
    assert_eq!(repo.vacuum(100, false, true).err(), Some(RepositoryError::BundleMapCorrupt));
    assert_eq!(repo.info().bundle_count, 1);
    assert_eq!(repo.check_repository(false), Err(RepositoryError::DirtyRepository));
    assert_eq!(repo.get_stream(&list).unwrap(), data);
    repo.set_time(1_500_000_300);
    assert!(repo.vacuum(100, false, true).is_ok());
    assert_eq!(repo.info().bundle_count, 1);
    assert_eq!(repo.get_stream(&list).unwrap(), data);
}
