use chunk_cache::model::CacheError;
use chunk_cache::model::CacheServer;
use chunk_cache::model::ChunkRef;
use chunk_cache::model::Manifest;
use chunk_cache::model::RetentionPolicy;
use chunk_cache::model::SCHEMA_VERSION;

fn patterned(len: usize, salt: u8) -> Vec<u8> {
    let mut v = Vec::new();
    for i in 0..len {
        v.push(((i as u64 * 7 + 13 + salt as u64) % 251) as u8);
    }
    v
}

fn ingest(s: &mut CacheServer, cache: u64, path: &[u8], data: &[u8], now: u64) -> u64 {
    let lease = s.begin_upload(now, 1000);
    let m = s.stage_archive(lease, now, &data.to_vec()).unwrap();
    s.commit_entry(cache, lease, path.to_vec(), m, now).unwrap()
}

#[test]
fn migrations_are_idempotent() {
    let mut s = CacheServer::new();
    assert_eq!(s.schema_version, 0);
    s.run_migrations();
    assert_eq!(s.schema_version, SCHEMA_VERSION);
    s.run_migrations();
    assert_eq!(s.schema_version, SCHEMA_VERSION);
}

#[test]
fn round_trip_single_archive() {
    let mut s = CacheServer::new();
    s.run_migrations();
    let c = s.create_cache(b"main".to_vec(), RetentionPolicy::Unlimited).unwrap();
    let data = patterned(500, 0);
    let id = ingest(&mut s, c, b"path-a", &data, 1);
    let back = s.read_entry(id).unwrap();
    assert_eq!(back, data);
    let found = s.lookup_entry(c, &b"path-a".to_vec()).unwrap();
    assert_eq!(found, id);
}

#[test]
fn empty_archive_round_trips_with_empty_manifest() {
    let mut s = CacheServer::new();
    let c = s.create_cache(b"main".to_vec(), RetentionPolicy::Unlimited).unwrap();
    let lease = s.begin_upload(0, 100);
    let m = s.stage_archive(lease, 0, &Vec::new()).unwrap();
    assert_eq!(m.chunks.len(), 0);
    assert_eq!(m.total_size, 0);
    let id = s.commit_entry(c, lease, b"empty".to_vec(), m, 0).unwrap();
    assert_eq!(s.read_entry(id).unwrap(), Vec::<u8>::new());
}

#[test]
fn identical_archives_in_two_caches_share_all_chunks() {
    let mut s = CacheServer::new();
    let c1 = s.create_cache(b"one".to_vec(), RetentionPolicy::Unlimited).unwrap();
    let c2 = s.create_cache(b"two".to_vec(), RetentionPolicy::Unlimited).unwrap();
    let data = patterned(400, 3);
    let id1 = ingest(&mut s, c1, b"p", &data, 1);
    let blobs_after_first = s.store.blobs.len();
    let id2 = ingest(&mut s, c2, b"p", &data, 2);
    assert_eq!(s.store.blobs.len(), blobs_after_first);
    assert_eq!(s.read_entry(id1).unwrap(), data);
    assert_eq!(s.read_entry(id2).unwrap(), data);
}

#[test]
fn shared_prefix_is_stored_once() {
    let mut s = CacheServer::new();
    let c = s.create_cache(b"main".to_vec(), RetentionPolicy::Unlimited).unwrap();
    let prefix = patterned(300, 5);
    let mut d1 = prefix.clone();
    d1.extend_from_slice(&patterned(100, 60));
    let mut d2 = prefix;
    d2.extend_from_slice(&patterned(100, 90));
    let lease = s.begin_upload(0, 100);
    let m1 = s.stage_archive(lease, 0, &d1).unwrap();
    s.commit_entry(c, lease, b"a".to_vec(), m1, 0).unwrap();
    let lease2 = s.begin_upload(0, 100);
    let m2 = s.stage_archive(lease2, 0, &d2).unwrap();
    let n1 = s.rows.len();
    let id2 = s.commit_entry(c, lease2, b"b".to_vec(), m2, 0).unwrap();
    // the chunks of the shared prefix were found present and written once
    let total_refs: usize = s.entries.iter().map(|e| e.manifest.chunks.len()).sum();
    assert!(s.rows.len() < total_refs);
    assert_eq!(s.rows.len(), n1);
    // total stored bytes are strictly below the sum of the raw sizes
    let stored: u64 = s.rows.iter().map(|r| r.size_uncompressed).sum();
    assert!((stored as usize) < d1.len() + d2.len());
    assert_eq!(s.read_entry(id2).unwrap(), d2);
}

#[test]
fn lease_protects_uncommitted_chunks_from_sweep() {
    let mut s = CacheServer::new();
    s.create_cache(b"main".to_vec(), RetentionPolicy::Unlimited).unwrap();
    let lease = s.begin_upload(0, 100);
    let data = patterned(300, 9);
    s.stage_archive(lease, 0, &data).unwrap();
    let blobs_before = s.store.blobs.len();
    assert!(blobs_before > 0);
    let stats = s.sweep(10);
    // reference counts are all zero, yet the lease keeps every chunk
    assert_eq!(stats.chunks_deleted, 0);
    assert_eq!(s.store.blobs.len(), blobs_before);
    // after an abort the orphaned chunks are reclaimed by the next sweep
    s.abort_upload(lease).unwrap();
    let stats = s.sweep(10);
    assert_eq!(stats.chunks_deleted, blobs_before as u64);
    assert_eq!(s.store.blobs.len(), 0);
    assert_eq!(s.rows.len(), 0);
}

#[test]
fn expired_lease_is_swept_and_chunks_reclaimed() {
    let mut s = CacheServer::new();
    let lease = s.begin_upload(0, 5);
    s.stage_archive(lease, 0, &patterned(200, 1)).unwrap();
    let stats = s.sweep(10);
    assert_eq!(stats.leases_expired, 1);
    assert_eq!(s.leases.len(), 0);
    assert_eq!(s.store.blobs.len(), 0);
}

#[test]
fn extended_lease_keeps_protecting() {
    let mut s = CacheServer::new();
    let lease = s.begin_upload(0, 5);
    s.stage_archive(lease, 0, &patterned(200, 2)).unwrap();
    s.extend_lease(lease, 50).unwrap();
    let blobs = s.store.blobs.len();
    let stats = s.sweep(10);
    assert_eq!(stats.leases_expired, 0);
    assert_eq!(s.store.blobs.len(), blobs);
}

#[test]
fn sweep_twice_deletes_nothing_more() {
    let mut s = CacheServer::new();
    let c = s.create_cache(b"main".to_vec(), RetentionPolicy::KeepLast { count: 1 }).unwrap();
    ingest(&mut s, c, b"p", &patterned(300, 1), 1);
    ingest(&mut s, c, b"p", &patterned(300, 2), 2);
    let first = s.sweep(10);
    assert_eq!(first.entries_deleted, 1);
    let second = s.sweep(10);
    assert_eq!(second.entries_deleted, 0);
    assert_eq!(second.chunks_deleted, 0);
    assert_eq!(second.leases_expired, 0);
    assert_eq!(second.bytes_reclaimed, 0);
}

#[test]
fn retain_last_two_keeps_shared_chunks() {
    let mut s = CacheServer::new();
    let c = s.create_cache(b"main".to_vec(), RetentionPolicy::KeepLast { count: 2 }).unwrap();
    let shared = patterned(300, 7);
    let mut e1 = shared.clone();
    e1.extend_from_slice(&patterned(150, 40));
    let mut e2 = shared;
    e2.extend_from_slice(&patterned(150, 80));
    let e3 = patterned(200, 120);
    let id1 = ingest(&mut s, c, b"p", &e1, 1);
    let id2 = ingest(&mut s, c, b"p", &e2, 2);
    let id3 = ingest(&mut s, c, b"p", &e3, 3);
    let blobs_before = s.store.blobs.len();
    let stats = s.sweep(10);
    assert_eq!(stats.entries_deleted, 1);
    assert_eq!(s.entries.len(), 2);
    // the oldest entry is gone, its private chunks reclaimed
    assert_eq!(s.read_entry(id1), Err(CacheError::EntryNotFound));
    assert!(s.store.blobs.len() < blobs_before);
    assert!(stats.chunks_deleted > 0);
    // chunks shared with a retained entry stay, so both survivors still read
    assert_eq!(s.read_entry(id2).unwrap(), e2);
    assert_eq!(s.read_entry(id3).unwrap(), e3);
    // the newest entry wins the lookup
    assert_eq!(s.lookup_entry(c, &b"p".to_vec()).unwrap(), id3);
}

#[test]
fn identical_entries_share_chunks_after_one_expires() {
    let mut s = CacheServer::new();
    let c = s.create_cache(b"main".to_vec(), RetentionPolicy::KeepLast { count: 1 }).unwrap();
    let data = patterned(250, 11);
    ingest(&mut s, c, b"p", &data, 1);
    let id2 = ingest(&mut s, c, b"p", &data, 2);
    let blobs_before = s.store.blobs.len();
    let stats = s.sweep(5);
    assert_eq!(stats.entries_deleted, 1);
    // every chunk is still referenced by the surviving entry
    assert_eq!(stats.chunks_deleted, 0);
    assert_eq!(s.store.blobs.len(), blobs_before);
    assert_eq!(s.read_entry(id2).unwrap(), data);
}

#[test]
fn fetch_returns_newest_and_records_the_access() {
    let mut s = CacheServer::new();
    let c = s.create_cache(b"main".to_vec(), RetentionPolicy::KeepWithin { duration: 10 }).unwrap();
    let old_data = patterned(120, 1);
    let new_data = patterned(120, 2);
    ingest(&mut s, c, b"p", &old_data, 0);
    ingest(&mut s, c, b"p", &new_data, 1);
    let got = s.fetch_entry(c, &b"p".to_vec(), 30).unwrap();
    assert_eq!(got, new_data);
    // the fetch refreshed the newest entry, so it survives a sweep the
    // untouched one does not
    let stats = s.sweep(35);
    assert_eq!(stats.entries_deleted, 1);
    assert_eq!(s.fetch_entry(c, &b"p".to_vec(), 36).unwrap(), new_data);
    assert_eq!(s.fetch_entry(c, &b"q".to_vec(), 36), Err(CacheError::EntryNotFound));
}

#[test]
fn keep_within_expires_stale_entries_and_touch_refreshes() {
    let mut s = CacheServer::new();
    let c = s.create_cache(b"main".to_vec(), RetentionPolicy::KeepWithin { duration: 10 }).unwrap();
    let id_a = ingest(&mut s, c, b"a", &patterned(100, 1), 0);
    let id_b = ingest(&mut s, c, b"b", &patterned(100, 2), 0);
    s.touch_entry(id_b, 15).unwrap();
    let stats = s.sweep(20);
    assert_eq!(stats.entries_deleted, 1);
    assert_eq!(s.read_entry(id_a), Err(CacheError::EntryNotFound));
    assert!(s.read_entry(id_b).is_ok());
}

#[test]
fn invalid_policy_and_duplicate_names_are_rejected() {
    let mut s = CacheServer::new();
    assert_eq!(
        s.create_cache(b"x".to_vec(), RetentionPolicy::KeepLast { count: 0 }),
        Err(CacheError::InvalidPolicy)
    );
    s.create_cache(b"x".to_vec(), RetentionPolicy::Unlimited).unwrap();
    assert_eq!(
        s.create_cache(b"x".to_vec(), RetentionPolicy::Unlimited),
        Err(CacheError::CacheNameTaken)
    );
}

#[test]
fn commit_validates_cache_lease_and_staging() {
    let mut s = CacheServer::new();
    let c = s.create_cache(b"main".to_vec(), RetentionPolicy::Unlimited).unwrap();
    let lease = s.begin_upload(0, 5);
    let m = s.stage_archive(lease, 0, &patterned(50, 1)).unwrap();
    let empty = Manifest { chunks: Vec::new(), total_size: 0 };
    assert_eq!(
        s.commit_entry(c + 1, lease, b"p".to_vec(), empty, 0),
        Err(CacheError::CacheNotFound)
    );
    let empty = Manifest { chunks: Vec::new(), total_size: 0 };
    assert_eq!(
        s.commit_entry(c, lease + 1, b"p".to_vec(), empty, 0),
        Err(CacheError::LeaseNotFound)
    );
    // a manifest referencing a chunk the lease never staged is refused
    let bogus = Manifest {
        chunks: vec![ChunkRef { key: vec![1, 2, 3], size: 3 }],
        total_size: 3,
    };
    assert_eq!(
        s.commit_entry(c, lease, b"p".to_vec(), bogus, 0),
        Err(CacheError::ChunkNotStaged)
    );
    // committing after the lease expired is refused
    assert_eq!(s.commit_entry(c, lease, b"p".to_vec(), m, 9), Err(CacheError::LeaseExpired));
}

#[test]
fn stage_requires_a_live_lease() {
    let mut s = CacheServer::new();
    assert!(matches!(s.stage_archive(7, 0, &vec![1u8, 2, 3]), Err(CacheError::LeaseNotFound)));
    let lease = s.begin_upload(0, 5);
    assert!(matches!(
        s.stage_archive(lease, 9, &vec![1u8, 2, 3]),
        Err(CacheError::LeaseExpired)
    ));
}

#[test]
fn lookups_report_missing_caches_and_entries() {
    let mut s = CacheServer::new();
    assert_eq!(s.lookup_entry(0, &b"p".to_vec()), Err(CacheError::CacheNotFound));
    let c = s.create_cache(b"main".to_vec(), RetentionPolicy::Unlimited).unwrap();
    assert_eq!(s.lookup_entry(c, &b"p".to_vec()), Err(CacheError::EntryNotFound));
    assert_eq!(s.read_entry(42), Err(CacheError::EntryNotFound));
    assert_eq!(s.touch_entry(42, 0), Err(CacheError::EntryNotFound));
    assert_eq!(s.abort_upload(42), Err(CacheError::LeaseNotFound));
    assert_eq!(s.extend_lease(42, 10), Err(CacheError::LeaseNotFound));
}

#[test]
fn deleting_a_cache_cascades_to_entries_but_not_chunks() {
    let mut s = CacheServer::new();
    let c = s.create_cache(b"main".to_vec(), RetentionPolicy::Unlimited).unwrap();
    ingest(&mut s, c, b"a", &patterned(200, 1), 1);
    ingest(&mut s, c, b"b", &patterned(200, 2), 2);
    let blobs = s.store.blobs.len();
    s.delete_cache(c).unwrap();
    assert_eq!(s.entries.len(), 0);
    assert_eq!(s.lookup_entry(c, &b"a".to_vec()), Err(CacheError::CacheNotFound));
    // the blobs are untouched until the next sweep reclaims them
    assert_eq!(s.store.blobs.len(), blobs);
    for row in s.rows.iter() {
        assert_eq!(row.refcount, 0);
    }
    let stats = s.sweep(5);
    assert_eq!(stats.chunks_deleted, blobs as u64);
    assert_eq!(s.store.blobs.len(), 0);
    assert_eq!(s.delete_cache(c), Err(CacheError::CacheNotFound));
}

#[test]
fn refcounts_track_committed_manifests() {
    let mut s = CacheServer::new();
    let c = s.create_cache(b"main".to_vec(), RetentionPolicy::Unlimited).unwrap();
    let data = patterned(100, 21);
    ingest(&mut s, c, b"a", &data, 1);
    ingest(&mut s, c, b"b", &data, 2);
    for row in s.rows.iter() {
        assert_eq!(row.refcount, 2);
    }
}
