//! Operations of the cache server: migrations, cache administration, the
//! ingestion protocol (lease, stage, commit or abort) and entry reads.
//!
//! Every operation preserves the well-formedness invariant `CacheServer::wf`,
//! so reference counts always equal the number of committed manifests
//! listing each chunk, and committed manifests never dangle.

use vstd::prelude::*;
use crate::chunking::chunks_of;
use crate::chunking::lemma_chunks_concat;
use crate::chunking::split_chunks;
use crate::chunking::views_of;
use crate::codec::compress;
use crate::codec::lemma_rle_round_trip;
use crate::model::Cache;
use crate::model::CacheError;
use crate::model::CacheServer;
use crate::model::ChunkRef;
use crate::model::ChunkRow;
use crate::model::Entry;
use crate::model::Lease;
use crate::model::Manifest;
use crate::model::RetentionPolicy;
use crate::model::SCHEMA_VERSION;
use crate::model::content_of;
use crate::model::count_refs;
use crate::model::has_cache;
use crate::model::has_lease;
use crate::model::has_row;
use crate::model::lease_has;
use crate::model::lemma_count_refs_witness;
use crate::model::manifest_has;
use crate::model::manifest_keys;
use crate::model::manifest_wf;
use crate::model::rows_bytes;
use crate::store::ChunkStore;
use crate::store::bytes_eq;
use crate::store::clone_bytes;
use crate::store::has_blob;

verus! {

/// A key that has a row keeps its row when the row table only grows.
proof fn lemma_has_row_grow(pre: Seq<ChunkRow>, post: Seq<ChunkRow>, k: Seq<u8>)
    requires
        has_row(pre, k),
        pre.len() <= post.len(),
        forall|i: int| 0 <= i < pre.len() ==> #[trigger] post[i] == pre[i],
    ensures
        has_row(post, k),
{
    let u = choose|u: int| 0 <= u < pre.len() && pre[u].key@ == k;
    assert(post[u].key@ == k);
}

/// Whether a lease names every chunk a manifest references.
pub open spec fn lease_covers_manifest(l: Lease, m: Manifest) -> bool {
    forall|j: int| 0 <= j < m.chunks@.len() ==> lease_has(l, (#[trigger] m.chunks@[j]).key@)
}

/// Whether one of the first `j` references of a manifest has key `k`.
pub open spec fn manifest_has_prefix(m: Manifest, j: int, k: Seq<u8>) -> bool {
    exists|t: int| 0 <= t < j && t < m.chunks@.len() && m.chunks@[t].key@ == k
}

/// Whether a lease names chunk key `key`.
pub(crate) fn lease_contains_key(l: &Lease, key: &Vec<u8>) -> (r: bool)
    ensures
        r == lease_has(*l, key@),
{
    let mut t: usize = 0;
    while t < l.chunks.len()
        invariant
            t <= l.chunks@.len(),
            forall|u: int| 0 <= u < t ==> (#[trigger] l.chunks@[u])@ != key@,
        decreases l.chunks@.len() - t,
    {
        if bytes_eq(&l.chunks[t], key) {
            return true;
        }
        t = t + 1;
    }
    false
}

/// A retention policy is valid unless it keeps a most-recent set of size
/// zero, which would retain nothing and is rejected at configuration time.
pub open spec fn policy_valid(p: RetentionPolicy) -> bool {
    match p {
        RetentionPolicy::KeepLast { count } => count > 0,
        _ => true,
    }
}

/// Whether a cache with this name exists.
pub open spec fn name_taken(caches: Seq<Cache>, name: Seq<u8>) -> bool {
    exists|i: int| 0 <= i < caches.len() && caches[i].name@ == name
}

/// Whether an entry belongs to the cache and path being looked up.
pub open spec fn entry_matches(e: Entry, cache_id: u64, path: Seq<u8>) -> bool {
    e.cache_id == cache_id && e.path@ == path
}

pub(crate) fn find_entry_index(entries: &Vec<Entry>, id: u64) -> (r: Option<usize>)
    ensures
        match r {
            Some(i) => i < entries@.len() && entries@[i as int].id == id,
            None => forall|j: int| 0 <= j < entries@.len() ==> (#[trigger] entries@[j]).id != id,
        },
{
    let mut i: usize = 0;
    while i < entries.len()
        invariant
            i <= entries@.len(),
            forall|j: int| 0 <= j < i ==> (#[trigger] entries@[j]).id != id,
        decreases entries@.len() - i,
    {
        if entries[i].id == id {
            return Some(i);
        }
        i = i + 1;
    }
    None
}

pub(crate) fn find_cache_index(caches: &Vec<Cache>, id: u64) -> (r: Option<usize>)
    ensures
        match r {
            Some(i) => i < caches@.len() && caches@[i as int].id == id,
            None => !has_cache(caches@, id),
        },
{
    let mut i: usize = 0;
    while i < caches.len()
        invariant
            i <= caches@.len(),
            forall|j: int| 0 <= j < i ==> (#[trigger] caches@[j]).id != id,
        decreases caches@.len() - i,
    {
        if caches[i].id == id {
            return Some(i);
        }
        i = i + 1;
    }
    None
}

pub(crate) fn find_lease_index(leases: &Vec<Lease>, id: u64) -> (r: Option<usize>)
    ensures
        match r {
            Some(i) => i < leases@.len() && leases@[i as int].id == id,
            None => !has_lease(leases@, id),
        },
{
    let mut i: usize = 0;
    while i < leases.len()
        invariant
            i <= leases@.len(),
            forall|j: int| 0 <= j < i ==> (#[trigger] leases@[j]).id != id,
        decreases leases@.len() - i,
    {
        if leases[i].id == id {
            return Some(i);
        }
        i = i + 1;
    }
    None
}

pub(crate) fn find_row_index(rows: &Vec<ChunkRow>, key: &Vec<u8>) -> (r: Option<usize>)
    ensures
        match r {
            Some(i) => i < rows@.len() && rows@[i as int].key@ == key@,
            None => !has_row(rows@, key@),
        },
{
    let mut i: usize = 0;
    while i < rows.len()
        invariant
            i <= rows@.len(),
            forall|j: int| 0 <= j < i ==> (#[trigger] rows@[j]).key@ != key@,
        decreases rows@.len() - i,
    {
        if bytes_eq(&rows[i].key, key) {
            return Some(i);
        }
        i = i + 1;
    }
    None
}

impl CacheServer {
    /// A fresh, empty server whose metadata schema has not been migrated yet.
    pub fn new() -> (s: CacheServer)
        ensures
            s.wf(),
            s.caches@.len() == 0,
            s.entries@.len() == 0,
            s.rows@.len() == 0,
            s.leases@.len() == 0,
            s.store.blobs@.len() == 0,
            s.schema_version == 0,
    {
        CacheServer {
            caches: Vec::new(),
            entries: Vec::new(),
            rows: Vec::new(),
            leases: Vec::new(),
            store: ChunkStore::new(),
            next_cache_id: 0,
            next_entry_id: 0,
            next_lease_id: 0,
            schema_version: 0,
        }
    }

    /// Bring the metadata schema to the current version. Idempotent: running
    /// it against an already-current schema changes nothing.
    pub fn run_migrations(&mut self)
        ensures
            final(self).schema_version == SCHEMA_VERSION,
            final(self).caches == old(self).caches,
            final(self).entries == old(self).entries,
            final(self).rows == old(self).rows,
            final(self).leases == old(self).leases,
            final(self).store == old(self).store,
            final(self).next_cache_id == old(self).next_cache_id,
            final(self).next_entry_id == old(self).next_entry_id,
            final(self).next_lease_id == old(self).next_lease_id,
            old(self).schema_version == SCHEMA_VERSION ==> *final(self) == *old(self),
            old(self).wf() ==> final(self).wf(),
    {
        if self.schema_version != SCHEMA_VERSION {
            self.schema_version = SCHEMA_VERSION;
        }
    }

    /// Create a cache with a fresh id. Rejects an invalid retention policy
    /// and a name that is already taken; on error nothing changes.
    pub fn create_cache(&mut self, name: Vec<u8>, policy: RetentionPolicy) -> (r: Result<
        u64,
        CacheError,
    >)
        requires
            old(self).wf(),
            old(self).next_cache_id < u64::MAX,
        ensures
            final(self).wf(),
            (r is Ok) == (policy_valid(policy) && !name_taken(old(self).caches@, name@)),
            r == Err::<u64, CacheError>(CacheError::InvalidPolicy) <==> !policy_valid(policy),
            r == Err::<u64, CacheError>(CacheError::CacheNameTaken) <==> (policy_valid(policy)
                && name_taken(old(self).caches@, name@)),
            r is Err ==> *final(self) == *old(self),
            r matches Ok(id) ==> id == old(self).next_cache_id
                && final(self).caches@ == old(self).caches@.push(
                (Cache { id: id, name: name, policy: policy }),
            ) && final(self).next_cache_id == old(self).next_cache_id + 1,
            final(self).entries == old(self).entries,
            final(self).rows == old(self).rows,
            final(self).leases == old(self).leases,
            final(self).store == old(self).store,
            final(self).next_entry_id == old(self).next_entry_id,
            final(self).next_lease_id == old(self).next_lease_id,
            final(self).schema_version == old(self).schema_version,
    {
        let valid = match policy {
            RetentionPolicy::KeepLast { count } => count > 0,
            _ => true,
        };
        if !valid {
            return Err(CacheError::InvalidPolicy);
        }
        let mut i: usize = 0;
        while i < self.caches.len()
            invariant
                *self == *old(self),
                old(self).wf(),
                old(self).next_cache_id < u64::MAX,
                policy_valid(policy),
                i <= self.caches@.len(),
                forall|j: int| 0 <= j < i ==> (#[trigger] self.caches@[j]).name@ != name@,
            decreases self.caches@.len() - i,
        {
            if bytes_eq(&self.caches[i].name, &name) {
                return Err(CacheError::CacheNameTaken);
            }
            i = i + 1;
        }
        let id = self.next_cache_id;
        self.caches.push(Cache { id, name, policy });
        self.next_cache_id = id + 1;
        proof {
            let post = self.caches@;
            let pre = old(self).caches@;
            assert forall|i2: int, j2: int| 0 <= i2 < j2 < post.len() implies post[i2].id
                != post[j2].id && post[i2].name@ != post[j2].name@ by {
                if j2 == post.len() - 1 {
                    assert(pre[i2].id < id);
                }
            }
            assert forall|i2: int|
                0 <= i2 < self.entries@.len() implies has_cache(
                self.caches@,
                (#[trigger] self.entries@[i2]).cache_id,
            ) by {
                let w = choose|w: int|
                    0 <= w < pre.len() && pre[w].id == old(self).entries@[i2].cache_id;
                assert(post[w].id == self.entries@[i2].cache_id);
            }
        }
        Ok(id)
    }

    /// Begin an upload: record a lease that protects the chunks this upload
    /// will stage until `now + ttl`.
    pub fn begin_upload(&mut self, now: u64, ttl: u64) -> (lease_id: u64)
        requires
            old(self).wf(),
            old(self).next_lease_id < u64::MAX,
            now + ttl <= u64::MAX,
        ensures
            final(self).wf(),
            lease_id == old(self).next_lease_id,
            final(self).leases@.len() == old(self).leases@.len() + 1,
            final(self).leases@ == old(self).leases@.push(final(self).leases@.last()),
            final(self).leases@.last().id == lease_id,
            final(self).leases@.last().expires_at == now + ttl,
            final(self).leases@.last().chunks@.len() == 0,
            final(self).next_lease_id == old(self).next_lease_id + 1,
            final(self).caches == old(self).caches,
            final(self).entries == old(self).entries,
            final(self).rows == old(self).rows,
            final(self).store == old(self).store,
            final(self).next_cache_id == old(self).next_cache_id,
            final(self).next_entry_id == old(self).next_entry_id,
            final(self).schema_version == old(self).schema_version,
    {
        let id = self.next_lease_id;
        self.leases.push(Lease { id, expires_at: now + ttl, chunks: Vec::new() });
        self.next_lease_id = id + 1;
        id
    }

    /// Heartbeat: push a lease's expiry out to `expires_at` (never in).
    pub fn extend_lease(&mut self, lease_id: u64, expires_at: u64) -> (r: Result<(), CacheError>)
        requires
            old(self).wf(),
        ensures
            final(self).wf(),
            (r is Ok) == has_lease(old(self).leases@, lease_id),
            r is Err ==> r == Err::<(), CacheError>(CacheError::LeaseNotFound) && *final(self)
                == *old(self),
            r is Ok ==> exists|i: int|
                0 <= i < old(self).leases@.len() && (#[trigger] old(self).leases@[i]).id
                    == lease_id && final(self).leases@ == old(self).leases@.update(
                    i,
                    (Lease {
                        id: lease_id,
                        expires_at: if old(self).leases@[i].expires_at >= expires_at {
                            old(self).leases@[i].expires_at
                        } else {
                            expires_at
                        },
                        chunks: old(self).leases@[i].chunks,
                    }),
                ),
            final(self).caches == old(self).caches,
            final(self).entries == old(self).entries,
            final(self).rows == old(self).rows,
            final(self).store == old(self).store,
            final(self).next_cache_id == old(self).next_cache_id,
            final(self).next_entry_id == old(self).next_entry_id,
            final(self).next_lease_id == old(self).next_lease_id,
            final(self).schema_version == old(self).schema_version,
    {
        match find_lease_index(&self.leases, lease_id) {
            None => Err(CacheError::LeaseNotFound),
            Some(i) => {
                let ghost pre = self.leases@;
                let mut l = self.leases.remove(i);
                if expires_at > l.expires_at {
                    l.expires_at = expires_at;
                }
                self.leases.insert(i, l);
                proof {
                    assert(self.leases@ =~= pre.update(i as int, self.leases@[i as int]));
                }
                Ok(())
            },
        }
    }

    /// Abort an upload: release its lease. Chunks it already staged stay in
    /// place as unreferenced content and are reclaimed by a later sweep once
    /// no lease protects them.
    pub fn abort_upload(&mut self, lease_id: u64) -> (r: Result<(), CacheError>)
        requires
            old(self).wf(),
        ensures
            final(self).wf(),
            (r is Ok) == has_lease(old(self).leases@, lease_id),
            !has_lease(final(self).leases@, lease_id),
            r is Err ==> r == Err::<(), CacheError>(CacheError::LeaseNotFound) && *final(self)
                == *old(self),
            r is Ok ==> exists|i: int|
                0 <= i < old(self).leases@.len() && (#[trigger] old(self).leases@[i]).id
                    == lease_id && final(self).leases@ == old(self).leases@.remove(i),
            final(self).caches == old(self).caches,
            final(self).entries == old(self).entries,
            final(self).rows == old(self).rows,
            final(self).store == old(self).store,
            final(self).next_cache_id == old(self).next_cache_id,
            final(self).next_entry_id == old(self).next_entry_id,
            final(self).next_lease_id == old(self).next_lease_id,
            final(self).schema_version == old(self).schema_version,
    {
        match find_lease_index(&self.leases, lease_id) {
            None => Err(CacheError::LeaseNotFound),
            Some(i) => {
                self.leases.remove(i);
                proof {
                    assert forall|j: int|
                        0 <= j < final(self).leases@.len() implies (#[trigger] final(
                        self).leases@[j]).id != lease_id by {
                        if j < i {
                            assert(final(self).leases@[j] == old(self).leases@[j]);
                        } else {
                            assert(final(self).leases@[j] == old(self).leases@[j + 1]);
                        }
                    }
                }
                Ok(())
            },
        }
    }

    /// Run the dedup engine for one upload: split the archive into
    /// content-defined chunks, store (compressed) the chunks whose content is
    /// not yet present, register every chunk under the upload's lease, and
    /// return the manifest. Content already present is never rewritten.
    pub fn stage_archive(&mut self, lease_id: u64, now: u64, data: &Vec<u8>) -> (r: Result<
        Manifest,
        CacheError,
    >)
        requires
            old(self).wf(),
        ensures
            final(self).wf(),
            r == Err::<Manifest, CacheError>(CacheError::LeaseNotFound) <==> !has_lease(
                old(self).leases@,
                lease_id,
            ),
            r == Err::<Manifest, CacheError>(CacheError::LeaseExpired) <==> exists|i: int|
                0 <= i < old(self).leases@.len() && (#[trigger] old(self).leases@[i]).id
                    == lease_id && old(self).leases@[i].expires_at <= now,
            (r is Ok) == exists|i: int|
                0 <= i < old(self).leases@.len() && (#[trigger] old(self).leases@[i]).id
                    == lease_id && now < old(self).leases@[i].expires_at,
            r is Err ==> *final(self) == *old(self),
            final(self).caches == old(self).caches,
            final(self).entries == old(self).entries,
            final(self).next_cache_id == old(self).next_cache_id,
            final(self).next_entry_id == old(self).next_entry_id,
            final(self).next_lease_id == old(self).next_lease_id,
            final(self).schema_version == old(self).schema_version,
            old(self).rows@.len() <= final(self).rows@.len(),
            forall|i: int|
                0 <= i < old(self).rows@.len() ==> #[trigger] final(self).rows@[i] == old(self).rows@[i],
            old(self).store.blobs@.len() <= final(self).store.blobs@.len(),
            forall|i: int|
                0 <= i < old(self).store.blobs@.len() ==> #[trigger] final(self).store.blobs@[i]
                    == old(self).store.blobs@[i],
            r matches Ok(m) ==> manifest_wf(m) && manifest_keys(m) == chunks_of(data@)
                && content_of(m) == data@,
            r matches Ok(m) ==> exists|i: int|
                0 <= i < old(self).leases@.len() && (#[trigger] old(self).leases@[i]).id
                    == lease_id && now < old(self).leases@[i].expires_at && final(self).leases@.len() == old(self).leases@.len() && final(self).leases@[i].id == lease_id
                    && final(self).leases@[i].expires_at == old(self).leases@[i].expires_at
                    && lease_covers_manifest(final(self).leases@[i], m) && (forall|j: int|
                    0 <= j < final(self).leases@.len() && j != i ==> final(self).leases@[j] == old(self).leases@[j]),
            r matches Ok(m) ==> forall|i: int|
                old(self).store.blobs@.len() <= i < final(self).store.blobs@.len() ==> !has_blob(
                    old(self).store.blobs@,
                    (#[trigger] final(self).store.blobs@[i]).key@,
                ) && manifest_has(m, final(self).store.blobs@[i].key@),
            r is Ok ==> rows_bytes(final(self).rows@) - rows_bytes(old(self).rows@) <= data@.len(),
            (r is Ok && exists|j: int|
                0 <= j < chunks_of(data@).len() && has_row(
                    old(self).rows@,
                    #[trigger] chunks_of(data@)[j],
                )) ==> rows_bytes(final(self).rows@) - rows_bytes(old(self).rows@) < data@.len(),
    {
        let li = match find_lease_index(&self.leases, lease_id) {
            None => {
                return Err(CacheError::LeaseNotFound);
            },
            Some(i) => i,
        };
        if self.leases[li].expires_at <= now {
            return Err(CacheError::LeaseExpired);
        }
        let mut lease = self.leases.remove(li);
        let chunks = split_chunks(data);
        let ghost cv = views_of(chunks@);
        proof {
            lemma_chunks_concat(data@);
            crate::chunking::lemma_chunks_sizes(data@);
            assert(cv.take(0) =~= Seq::<Seq<u8>>::empty());
            assert(cv.take(0).flatten() =~= Seq::<u8>::empty());
        }
        let mut refs: Vec<ChunkRef> = Vec::new();
        let mut ci: usize = 0;
        while ci < chunks.len()
            invariant
                old(self).wf(),
                cv.flatten() == data@,
                forall|j: int| 0 <= j < cv.len() ==> 1 <= (#[trigger] cv[j]).len(),
                rows_bytes(self.rows@) - rows_bytes(old(self).rows@) <= cv.take(
                    ci as int,
                ).flatten().len(),
                (exists|j: int|
                    0 <= j < ci && has_row(old(self).rows@, #[trigger] cv[j])) ==> rows_bytes(
                    self.rows@,
                ) - rows_bytes(old(self).rows@) < cv.take(ci as int).flatten().len(),
                0 <= li < old(self).leases@.len(),
                old(self).leases@[li as int].id == lease_id,
                now < old(self).leases@[li as int].expires_at,
                ci <= chunks@.len(),
                cv == views_of(chunks@),
                cv == chunks_of(data@),
                self.caches == old(self).caches,
                self.entries == old(self).entries,
                self.next_cache_id == old(self).next_cache_id,
                self.next_entry_id == old(self).next_entry_id,
                self.next_lease_id == old(self).next_lease_id,
                self.schema_version == old(self).schema_version,
                self.leases@ == old(self).leases@.remove(li as int),
                lease.id == lease_id,
                lease.expires_at == old(self).leases@[li as int].expires_at,
                forall|j: int|
                    0 <= j < lease.chunks@.len() ==> has_row(
                        self.rows@,
                        (#[trigger] lease.chunks@[j])@,
                    ),
                refs@.len() == ci,
                forall|j: int|
                    0 <= j < ci ==> (#[trigger] refs@[j]).key@ == cv[j] && refs@[j].size
                        == cv[j].len(),
                forall|j: int| 0 <= j < ci ==> lease_has(lease, #[trigger] cv[j]),
                forall|j: int| 0 <= j < ci ==> has_row(self.rows@, #[trigger] cv[j]),
                old(self).rows@.len() <= self.rows@.len(),
                forall|i: int|
                    0 <= i < old(self).rows@.len() ==> #[trigger] self.rows@[i] == old(self).rows@[i],
                old(self).store.blobs@.len() <= self.store.blobs@.len(),
                forall|i: int|
                    0 <= i < old(self).store.blobs@.len() ==> #[trigger] self.store.blobs@[i]
                        == old(self).store.blobs@[i],
                forall|i: int|
                    old(self).store.blobs@.len() <= i < self.store.blobs@.len() ==> !has_blob(
                        old(self).store.blobs@,
                        (#[trigger] self.store.blobs@[i]).key@,
                    ) && (exists|j: int| 0 <= j < ci && cv[j] == self.store.blobs@[i].key@),
                forall|i: int, j: int|
                    0 <= i < j < self.rows@.len() ==> self.rows@[i].key@ != self.rows@[j].key@,
                crate::store::blob_keys_unique(self.store.blobs@),
                forall|i: int|
                    0 <= i < self.rows@.len() ==> (#[trigger] self.rows@[i]).refcount == count_refs(
                        self.entries@,
                        self.rows@[i].key@,
                    ),
                forall|i: int|
                    0 <= i < self.rows@.len() ==> (#[trigger] self.rows@[i]).size_uncompressed
                        == self.rows@[i].key@.len(),
                forall|i: int|
                    0 <= i < self.rows@.len() ==> has_blob(
                        self.store.blobs@,
                        (#[trigger] self.rows@[i]).key@,
                    ),
                forall|i: int|
                    0 <= i < self.store.blobs@.len() ==> has_row(
                        self.rows@,
                        (#[trigger] self.store.blobs@[i]).key@,
                    ),
                forall|i: int|
                    0 <= i < self.store.blobs@.len() ==> crate::codec::rle_decode(
                        (#[trigger] self.store.blobs@[i]).data@,
                    ) == Some(self.store.blobs@[i].key@),
            decreases chunks@.len() - ci,
        {
            let key_ref = &chunks[ci];
            let ghost rows0 = self.rows@;
            let ghost blobs0 = self.store.blobs@;
            proof {
                assert(key_ref@ == cv[ci as int]);
            }
            match find_row_index(&self.rows, key_ref) {
                Some(ri) => {
                    proof {
                        assert(self.rows@[ri as int].key@ == cv[ci as int]);
                        assert(has_row(self.rows@, cv[ci as int]));
                    }
                },
                None => {
                    proof {
                        if has_row(old(self).rows@, cv[ci as int]) {
                            let u = choose|u: int|
                                0 <= u < old(self).rows@.len() && old(self).rows@[u].key@
                                    == cv[ci as int];
                            assert(self.rows@[u].key@ == cv[ci as int]);
                        }
                        assert(!has_row(old(self).rows@, cv[ci as int]));
                        if count_refs(self.entries@, cv[ci as int]) > 0 {
                            lemma_count_refs_witness(self.entries@, cv[ci as int]);
                            let w = choose|w: int|
                                0 <= w < self.entries@.len() && manifest_has(
                                    (#[trigger] self.entries@[w]).manifest,
                                    cv[ci as int],
                                );
                            let t = choose|t: int|
                                0 <= t < self.entries@[w].manifest.chunks@.len()
                                    && self.entries@[w].manifest.chunks@[t].key@ == cv[ci as int];
                            assert(has_row(old(self).rows@, cv[ci as int]));
                            let u = choose|u: int|
                                0 <= u < old(self).rows@.len() && old(self).rows@[u].key@
                                    == cv[ci as int];
                            assert(self.rows@[u].key@ == cv[ci as int]);
                        }
                    }
                    let payload = compress(key_ref);
                    proof {
                        lemma_rle_round_trip(cv[ci as int]);
                    }
                    let k1 = clone_bytes(key_ref);
                    let sc = payload.len() as u64;
                    let su = key_ref.len() as u64;
                    self.rows.push(
                        ChunkRow { key: k1, refcount: 0, size_compressed: sc, size_uncompressed: su
                        },
                    );
                    let k2 = clone_bytes(key_ref);
                    let stored = self.store.put(k2, payload);
                    proof {
                        assert(stored);
                        assert(self.rows@.last().key@ == cv[ci as int]);
                        assert(has_row(self.rows@, cv[ci as int]));
                    }
                },
            }
            proof {
                assert(has_row(self.rows@, cv[ci as int]));
            }
            let ghost pre_chunks = lease.chunks@;
            lease.chunks.push(clone_bytes(key_ref));
            refs.push(ChunkRef { key: clone_bytes(key_ref), size: key_ref.len() as u64 });
            proof {
                assert(lease.chunks@.last()@ == cv[ci as int]);
                assert forall|j: int| 0 <= j < ci + 1 implies lease_has(
                    lease,
                    #[trigger] cv[j],
                ) by {
                    if j < ci {
                        let t = choose|t: int|
                            0 <= t < pre_chunks.len() && pre_chunks[t]@ == cv[j];
                        assert(lease.chunks@[t]@ == cv[j]);
                    } else {
                        assert(lease.chunks@[lease.chunks@.len() - 1]@ == cv[j]);
                    }
                }
                assert forall|j: int| 0 <= j < ci + 1 implies has_row(
                    self.rows@,
                    #[trigger] cv[j],
                ) by {
                    if j < ci {
                        lemma_has_row_grow(rows0, self.rows@, cv[j]);
                    }
                }
                assert forall|j: int| 0 <= j < lease.chunks@.len() implies has_row(
                    self.rows@,
                    (#[trigger] lease.chunks@[j])@,
                ) by {
                    if j < pre_chunks.len() {
                        assert(lease.chunks@[j] == pre_chunks[j]);
                        lemma_has_row_grow(rows0, self.rows@, pre_chunks[j]@);
                    } else {
                        assert(lease.chunks@[j]@ == cv[ci as int]);
                    }
                }
                assert forall|i: int|
                    old(self).store.blobs@.len() <= i < self.store.blobs@.len() implies !has_blob(
                    old(self).store.blobs@,
                    (#[trigger] self.store.blobs@[i]).key@,
                ) && (exists|j: int| 0 <= j < ci + 1 && cv[j] == self.store.blobs@[i].key@) by {
                    if i < blobs0.len() {
                        assert(self.store.blobs@[i] == blobs0[i]);
                        let w = choose|w: int|
                            0 <= w < ci && cv[w] == self.store.blobs@[i].key@;
                        assert(0 <= w < ci + 1 && cv[w] == self.store.blobs@[i].key@);
                    } else {
                        assert(self.store.blobs@[i].key@ == cv[ci as int]);
                        if has_blob(old(self).store.blobs@, cv[ci as int]) {
                            let u = choose|u: int|
                                0 <= u < old(self).store.blobs@.len() && old(self).store.blobs@[u].key@ == cv[ci as int];
                            assert(blobs0[u].key@ == cv[ci as int]);
                            assert(has_blob(blobs0, cv[ci as int]));
                        }
                        assert(0 <= ci < ci + 1 && cv[ci as int] == self.store.blobs@[i].key@);
                    }
                }
                assert forall|i: int| 0 <= i < self.rows@.len() implies has_blob(
                    self.store.blobs@,
                    (#[trigger] self.rows@[i]).key@,
                ) by {
                    if i < rows0.len() {
                        assert(self.rows@[i] == rows0[i]);
                        let u = choose|u: int|
                            0 <= u < blobs0.len() && blobs0[u].key@ == rows0[i].key@;
                        assert(self.store.blobs@[u].key@ == rows0[i].key@);
                    } else {
                        assert(self.rows@[i].key@ == cv[ci as int]);
                        assert(self.store.blobs@.last().key@ == cv[ci as int]);
                    }
                }
                assert forall|i: int| 0 <= i < self.store.blobs@.len() implies has_row(
                    self.rows@,
                    (#[trigger] self.store.blobs@[i]).key@,
                ) by {
                    if i < blobs0.len() {
                        assert(self.store.blobs@[i] == blobs0[i]);
                        lemma_has_row_grow(rows0, self.rows@, blobs0[i].key@);
                    } else {
                        assert(self.store.blobs@[i].key@ == cv[ci as int]);
                    }
                }
                assert(self.rows@ == rows0 || (self.rows@ == rows0.push(self.rows@.last())
                    && self.rows@.last().size_uncompressed == cv[ci as int].len() && !has_row(
                    old(self).rows@,
                    cv[ci as int],
                )));
                if self.rows@ != rows0 {
                    crate::model::lemma_rows_bytes_push(rows0, self.rows@.last());
                }
                assert(cv.take(ci + 1) =~= cv.take(ci as int).push(cv[ci as int]));
                cv.take(ci as int).lemma_flatten_push(cv[ci as int]);
                assert(cv.take(ci + 1).flatten().len() == cv.take(ci as int).flatten().len()
                    + cv[ci as int].len());
            }
            ci = ci + 1;
        }
        let ghost pre_leases = self.leases@;
        self.leases.insert(li, lease);
        let total = if data.len() > 0 {
            data.len() as u64
        } else {
            0
        };
        let m = Manifest { chunks: refs, total_size: total };
        proof {
            assert(self.leases@ =~= old(self).leases@.update(li as int, self.leases@[li as int]));
            assert(manifest_keys(m) =~= cv);
            assert(content_of(m) == data@);
            assert(manifest_wf(m));
            assert(cv.take(cv.len() as int) =~= cv);
            assert forall|i: int, j: int|
                0 <= i < self.leases@.len() && 0 <= j < self.leases@[i].chunks@.len() implies
                has_row(self.rows@, (#[trigger] self.leases@[i].chunks@[j])@) by {
                if i != li as int {
                    assert(self.leases@[i] == old(self).leases@[i]);
                    assert(has_row(old(self).rows@, self.leases@[i].chunks@[j]@));
                    lemma_has_row_grow(
                        old(self).rows@,
                        self.rows@,
                        self.leases@[i].chunks@[j]@,
                    );
                }
            }
            assert forall|i: int, j: int|
                0 <= i < self.entries@.len() && 0 <= j
                    < self.entries@[i].manifest.chunks@.len() implies has_row(
                self.rows@,
                (#[trigger] self.entries@[i].manifest.chunks@[j]).key@,
            ) by {
                assert(self.entries@[i] == old(self).entries@[i]);
                assert(has_row(old(self).rows@, self.entries@[i].manifest.chunks@[j].key@));
                lemma_has_row_grow(
                    old(self).rows@,
                    self.rows@,
                    self.entries@[i].manifest.chunks@[j].key@,
                );
            }
        }
        Ok(m)
    }

    /// Commit an upload in one metadata transaction: insert the entry, raise
    /// each referenced chunk's reference count once, and release the lease.
    /// Succeeds exactly when the cache exists and the (unexpired) lease has
    /// staged every chunk the manifest references; on error nothing changes.
    pub fn commit_entry(
        &mut self,
        cache_id: u64,
        lease_id: u64,
        path: Vec<u8>,
        manifest: Manifest,
        now: u64,
    ) -> (r: Result<u64, CacheError>)
        requires
            old(self).wf(),
            manifest_wf(manifest),
            old(self).next_entry_id < u64::MAX,
            old(self).entries@.len() < u64::MAX,
        ensures
            final(self).wf(),
            r == Err::<u64, CacheError>(CacheError::CacheNotFound) <==> !has_cache(
                old(self).caches@,
                cache_id,
            ),
            r == Err::<u64, CacheError>(CacheError::LeaseNotFound) <==> (has_cache(
                old(self).caches@,
                cache_id,
            ) && !has_lease(old(self).leases@, lease_id)),
            r == Err::<u64, CacheError>(CacheError::LeaseExpired) <==> (has_cache(
                old(self).caches@,
                cache_id,
            ) && exists|i: int|
                0 <= i < old(self).leases@.len() && (#[trigger] old(self).leases@[i]).id
                    == lease_id && old(self).leases@[i].expires_at <= now),
            r == Err::<u64, CacheError>(CacheError::ChunkNotStaged) <==> (has_cache(
                old(self).caches@,
                cache_id,
            ) && exists|i: int|
                0 <= i < old(self).leases@.len() && (#[trigger] old(self).leases@[i]).id
                    == lease_id && now < old(self).leases@[i].expires_at
                    && !lease_covers_manifest(old(self).leases@[i], manifest)),
            (r is Ok) == (has_cache(old(self).caches@, cache_id) && exists|i: int|
                0 <= i < old(self).leases@.len() && (#[trigger] old(self).leases@[i]).id
                    == lease_id && now < old(self).leases@[i].expires_at && lease_covers_manifest(
                    old(self).leases@[i],
                    manifest,
                )),
            r is Err ==> *final(self) == *old(self),
            r matches Ok(id) ==> id == old(self).next_entry_id && final(self).next_entry_id == old(self).next_entry_id + 1 && final(self).entries@ == old(self).entries@.push(
                (Entry {
                    id: id,
                    cache_id: cache_id,
                    path: path,
                    last_accessed: now,
                    manifest: manifest,
                }),
            ) && (exists|i: int|
                0 <= i < old(self).leases@.len() && (#[trigger] old(self).leases@[i]).id
                    == lease_id && final(self).leases@ == old(self).leases@.remove(i)) && final(self).rows@.len() == old(self).rows@.len() && (forall|i: int|
                0 <= i < final(self).rows@.len() ==> (#[trigger] final(self).rows@[i]).key == old(self).rows@[i].key && final(self).rows@[i].size_compressed == old(self).rows@[i].size_compressed && final(self).rows@[i].size_uncompressed == old(self).rows@[i].size_uncompressed && final(self).rows@[i].refcount == old(self).rows@[i].refcount + (if manifest_has(manifest, old(self).rows@[i].key@) {
                    1int
                } else {
                    0int
                })),
            final(self).caches == old(self).caches,
            final(self).store == old(self).store,
            final(self).next_cache_id == old(self).next_cache_id,
            final(self).next_lease_id == old(self).next_lease_id,
            final(self).schema_version == old(self).schema_version,
    {
        broadcast use Seq::lemma_filter_len_push;

        if find_cache_index(&self.caches, cache_id).is_none() {
            return Err(CacheError::CacheNotFound);
        }
        let li = match find_lease_index(&self.leases, lease_id) {
            None => {
                return Err(CacheError::LeaseNotFound);
            },
            Some(i) => i,
        };
        if self.leases[li].expires_at <= now {
            return Err(CacheError::LeaseExpired);
        }
        let mut j: usize = 0;
        while j < manifest.chunks.len()
            invariant
                *self == *old(self),
                old(self).wf(),
                manifest_wf(manifest),
                has_cache(old(self).caches@, cache_id),
                0 <= li < self.leases@.len(),
                self.leases@[li as int].id == lease_id,
                now < self.leases@[li as int].expires_at,
                j <= manifest.chunks@.len(),
                forall|t: int|
                    0 <= t < j ==> lease_has(
                        self.leases@[li as int],
                        (#[trigger] manifest.chunks@[t]).key@,
                    ),
            decreases manifest.chunks@.len() - j,
        {
            if !lease_contains_key(&self.leases[li], &manifest.chunks[j].key) {
                return Err(CacheError::ChunkNotStaged);
            }
            j = j + 1;
        }
        proof {
            assert(lease_covers_manifest(self.leases@[li as int], manifest));
        }
        let mut j: usize = 0;
        while j < manifest.chunks.len()
            invariant
                old(self).wf(),
                manifest_wf(manifest),
                has_cache(old(self).caches@, cache_id),
                old(self).next_entry_id < u64::MAX,
                old(self).entries@.len() < u64::MAX,
                self.caches == old(self).caches,
                self.entries == old(self).entries,
                self.leases == old(self).leases,
                self.store == old(self).store,
                self.next_cache_id == old(self).next_cache_id,
                self.next_entry_id == old(self).next_entry_id,
                self.next_lease_id == old(self).next_lease_id,
                self.schema_version == old(self).schema_version,
                0 <= li < self.leases@.len(),
                self.leases@[li as int].id == lease_id,
                now < self.leases@[li as int].expires_at,
                lease_covers_manifest(self.leases@[li as int], manifest),
                j <= manifest.chunks@.len(),
                self.rows@.len() == old(self).rows@.len(),
                forall|i: int|
                    0 <= i < self.rows@.len() ==> (#[trigger] self.rows@[i]).key == old(self).rows@[i].key && self.rows@[i].size_compressed == old(self).rows@[i].size_compressed && self.rows@[i].size_uncompressed == old(self).rows@[i].size_uncompressed,
                forall|i: int|
                    0 <= i < self.rows@.len() ==> (#[trigger] self.rows@[i]).refcount == old(self).rows@[i].refcount + (if manifest_has_prefix(
                        manifest,
                        j as int,
                        old(self).rows@[i].key@,
                    ) {
                        1int
                    } else {
                        0int
                    }),
            decreases manifest.chunks@.len() - j,
        {
            let mut t: usize = 0;
            let mut seen = false;
            while t < j
                invariant
                    t <= j,
                    j < manifest.chunks@.len(),
                    seen ==> manifest_has_prefix(manifest, j as int, manifest.chunks@[j as int].key@),
                    !seen ==> forall|u: int|
                        0 <= u < t ==> (#[trigger] manifest.chunks@[u]).key@
                            != manifest.chunks@[j as int].key@,
                decreases j - t,
            {
                if bytes_eq(&manifest.chunks[t].key, &manifest.chunks[j].key) {
                    seen = true;
                    t = j;
                } else {
                    t = t + 1;
                }
            }
            if !seen {
                let ghost key_v = manifest.chunks@[j as int].key@;
                proof {
                    assert(!manifest_has_prefix(manifest, j as int, key_v));
                }
                let ri = match find_row_index(&self.rows, &manifest.chunks[j].key) {
                    Some(i) => i,
                    None => {
                        proof {
                            assert(lease_has(self.leases@[li as int], key_v));
                            let w = choose|w: int|
                                0 <= w < self.leases@[li as int].chunks@.len()
                                    && self.leases@[li as int].chunks@[w]@ == key_v;
                            assert(has_row(old(self).rows@, key_v));
                            let u = choose|u: int|
                                0 <= u < old(self).rows@.len() && old(self).rows@[u].key@ == key_v;
                            assert(self.rows@[u].key@ == key_v);
                        }
                        return Err(CacheError::ChunkNotStaged);
                    },
                };
                let ghost pre_rows = self.rows@;
                let mut row = self.rows.remove(ri);
                proof {
                    crate::model::lemma_count_refs_bound(self.entries@, row.key@);
                }
                row.refcount = row.refcount + 1;
                self.rows.insert(ri, row);
                proof {
                    assert(self.rows@ =~= pre_rows.update(ri as int, self.rows@[ri as int]));
                    assert forall|i: int| 0 <= i < self.rows@.len() implies (
                    #[trigger] self.rows@[i]).refcount == old(self).rows@[i].refcount + (
                    if manifest_has_prefix(manifest, j + 1, old(self).rows@[i].key@) {
                        1int
                    } else {
                        0int
                    }) by {
                        if i == ri as int {
                            assert(manifest.chunks@[j as int].key@ == old(self).rows@[i].key@);
                        } else {
                            assert(self.rows@[i] == pre_rows[i]);
                            assert(manifest_has_prefix(manifest, j + 1, old(self).rows@[i].key@)
                                == manifest_has_prefix(manifest, j as int, old(self).rows@[i].key@))
                                by {
                                if manifest_has_prefix(manifest, j + 1, old(self).rows@[i].key@)
                                    && !manifest_has_prefix(
                                    manifest,
                                    j as int,
                                    old(self).rows@[i].key@,
                                ) {
                                    assert(manifest.chunks@[j as int].key@ == old(self).rows@[i].key@);
                                    assert(old(self).rows@[i].key@ == old(self).rows@[ri as int].key@);
                                }
                            }
                        }
                    }
                }
            } else {
                proof {
                    assert forall|i: int| 0 <= i < self.rows@.len() implies (
                    #[trigger] self.rows@[i]).refcount == old(self).rows@[i].refcount + (
                    if manifest_has_prefix(manifest, j + 1, old(self).rows@[i].key@) {
                        1int
                    } else {
                        0int
                    }) by {
                        if manifest_has_prefix(manifest, j + 1, old(self).rows@[i].key@)
                            && !manifest_has_prefix(manifest, j as int, old(self).rows@[i].key@) {
                            assert(manifest.chunks@[j as int].key@ == old(self).rows@[i].key@);
                            assert(manifest_has_prefix(
                                manifest,
                                j as int,
                                manifest.chunks@[j as int].key@,
                            ));
                        }
                    }
                }
            }
            j = j + 1;
        }
        let id = self.next_entry_id;
        let ghost pre_entries = self.entries@;
        self.entries.push(
            Entry { id, cache_id, path, last_accessed: now, manifest },
        );
        self.next_entry_id = id + 1;
        let ghost pre_leases = self.leases@;
        self.leases.remove(li);
        proof {
            let e = self.entries@.last();
            assert forall|i: int| 0 <= i < self.rows@.len() implies (
            #[trigger] self.rows@[i]).refcount == count_refs(self.entries@, self.rows@[i].key@) by {
                let k = self.rows@[i].key@;
                assert(k == old(self).rows@[i].key@);
                assert(count_refs(self.entries@, k) == count_refs(pre_entries, k) + (
                if crate::model::manifest_has(e.manifest, k) {
                    1int
                } else {
                    0int
                }));
                assert(manifest_has_prefix(manifest, manifest.chunks@.len() as int, k)
                    == manifest_has(manifest, k));
                assert(old(self).rows@[i].refcount == count_refs(pre_entries, k));
            }
            assert forall|i: int, j2: int|
                0 <= i < self.entries@.len() && 0 <= j2
                    < self.entries@[i].manifest.chunks@.len() implies has_row(
                self.rows@,
                (#[trigger] self.entries@[i].manifest.chunks@[j2]).key@,
            ) by {
                let k = self.entries@[i].manifest.chunks@[j2].key@;
                if i < pre_entries.len() {
                    assert(self.entries@[i] == old(self).entries@[i]);
                    assert(has_row(old(self).rows@, k));
                } else {
                    assert(lease_has(pre_leases[li as int], k));
                    assert(has_row(old(self).rows@, k));
                }
                let u = choose|u: int|
                    0 <= u < old(self).rows@.len() && old(self).rows@[u].key@ == k;
                assert(self.rows@[u].key@ == k);
            }
            assert forall|i: int, j2: int|
                0 <= i < self.leases@.len() && 0 <= j2
                    < self.leases@[i].chunks@.len() implies has_row(
                self.rows@,
                (#[trigger] self.leases@[i].chunks@[j2])@,
            ) by {
                let k = self.leases@[i].chunks@[j2]@;
                if i < li as int {
                    assert(self.leases@[i] == pre_leases[i]);
                } else {
                    assert(self.leases@[i] == pre_leases[i + 1]);
                }
                assert(has_row(old(self).rows@, k));
                let u = choose|u: int|
                    0 <= u < old(self).rows@.len() && old(self).rows@[u].key@ == k;
                assert(self.rows@[u].key@ == k);
            }
            assert forall|i: int| 0 <= i < self.rows@.len() implies has_blob(
                self.store.blobs@,
                (#[trigger] self.rows@[i]).key@,
            ) by {
                assert(self.rows@[i].key@ == old(self).rows@[i].key@);
                assert(has_blob(old(self).store.blobs@, old(self).rows@[i].key@));
            }
            assert forall|i: int| 0 <= i < self.store.blobs@.len() implies has_row(
                self.rows@,
                (#[trigger] self.store.blobs@[i]).key@,
            ) by {
                let k = self.store.blobs@[i].key@;
                assert(has_row(old(self).rows@, k));
                let u = choose|u: int|
                    0 <= u < old(self).rows@.len() && old(self).rows@[u].key@ == k;
                assert(self.rows@[u].key@ == k);
            }
            assert forall|a: int, b: int| 0 <= a < b < self.rows@.len() implies self.rows@[a].key@
                != self.rows@[b].key@ by {
                assert(self.rows@[a].key@ == old(self).rows@[a].key@);
                assert(self.rows@[b].key@ == old(self).rows@[b].key@);
            }
            assert(has_lease(old(self).leases@, lease_id));
        }
        Ok(id)
    }

    /// Find the most recently committed entry for `path` in a cache.
    pub fn lookup_entry(&self, cache_id: u64, path: &Vec<u8>) -> (r: Result<u64, CacheError>)
        requires
            self.wf(),
        ensures
            r == Err::<u64, CacheError>(CacheError::CacheNotFound) <==> !has_cache(
                self.caches@,
                cache_id,
            ),
            (r is Ok) == (has_cache(self.caches@, cache_id) && exists|i: int|
                0 <= i < self.entries@.len() && entry_matches(
                    #[trigger] self.entries@[i],
                    cache_id,
                    path@,
                )),
            r == Err::<u64, CacheError>(CacheError::EntryNotFound) <==> (has_cache(
                self.caches@,
                cache_id,
            ) && !(exists|i: int|
                0 <= i < self.entries@.len() && entry_matches(
                    #[trigger] self.entries@[i],
                    cache_id,
                    path@,
                ))),
            r matches Ok(id) ==> exists|i: int|
                0 <= i < self.entries@.len() && entry_matches(
                    #[trigger] self.entries@[i],
                    cache_id,
                    path@,
                ) && self.entries@[i].id == id && (forall|t: int|
                    0 <= t < self.entries@.len() && entry_matches(
                        #[trigger] self.entries@[t],
                        cache_id,
                        path@,
                    ) ==> self.entries@[t].id <= id),
    {
        if find_cache_index(&self.caches, cache_id).is_none() {
            return Err(CacheError::CacheNotFound);
        }
        let mut best: Option<usize> = None;
        let mut i: usize = 0;
        while i < self.entries.len()
            invariant
                i <= self.entries@.len(),
                match best {
                    None => forall|j: int|
                        0 <= j < i ==> !entry_matches(#[trigger] self.entries@[j], cache_id, path@),
                    Some(b) => b < i && i <= self.entries@.len() && entry_matches(
                        self.entries@[b as int],
                        cache_id,
                        path@,
                    ) && forall|j: int|
                        0 <= j < i && entry_matches(#[trigger] self.entries@[j], cache_id, path@)
                            ==> self.entries@[j].id <= self.entries@[b as int].id,
                },
            decreases self.entries@.len() - i,
        {
            if self.entries[i].cache_id == cache_id && bytes_eq(&self.entries[i].path, path) {
                match best {
                    None => {
                        best = Some(i);
                    },
                    Some(b) => {
                        if self.entries[i].id > self.entries[b].id {
                            best = Some(i);
                        }
                    },
                }
            }
            i = i + 1;
        }
        match best {
            None => Err(CacheError::EntryNotFound),
            Some(b) => Ok(self.entries[b].id),
        }
    }

    /// Record an access to an entry: set its last-accessed stamp to `now`.
    pub fn touch_entry(&mut self, entry_id: u64, now: u64) -> (r: Result<(), CacheError>)
        requires
            old(self).wf(),
        ensures
            final(self).wf(),
            (r is Ok) == (exists|i: int|
                0 <= i < old(self).entries@.len() && (#[trigger] old(self).entries@[i]).id
                    == entry_id),
            r is Err ==> r == Err::<(), CacheError>(CacheError::EntryNotFound) && *final(self)
                == *old(self),
            r is Ok ==> exists|i: int|
                0 <= i < old(self).entries@.len() && (#[trigger] old(self).entries@[i]).id
                    == entry_id && final(self).entries@ == old(self).entries@.update(
                    i,
                    (Entry {
                        id: entry_id,
                        cache_id: old(self).entries@[i].cache_id,
                        path: old(self).entries@[i].path,
                        last_accessed: now,
                        manifest: old(self).entries@[i].manifest,
                    }),
                ),
            final(self).caches == old(self).caches,
            final(self).rows == old(self).rows,
            final(self).leases == old(self).leases,
            final(self).store == old(self).store,
            final(self).next_cache_id == old(self).next_cache_id,
            final(self).next_entry_id == old(self).next_entry_id,
            final(self).next_lease_id == old(self).next_lease_id,
            final(self).schema_version == old(self).schema_version,
    {
        match find_entry_index(&self.entries, entry_id) {
            None => Err(CacheError::EntryNotFound),
            Some(i) => {
                let ghost pre = self.entries@;
                let mut e = self.entries.remove(i);
                e.last_accessed = now;
                self.entries.insert(i, e);
                proof {
                    assert(self.entries@ =~= pre.update(i as int, self.entries@[i as int]));
                    assert forall|t: int| 0 <= t < self.rows@.len() implies (
                    #[trigger] self.rows@[t]).refcount == count_refs(
                        self.entries@,
                        self.rows@[t].key@,
                    ) by {
                        let k = self.rows@[t].key@;
                        let p = |e2: Entry| crate::model::manifest_has(e2.manifest, k);
                        assert(p(self.entries@[i as int]) == p(pre[i as int]));
                        crate::model::lemma_filter_update_len(
                            pre,
                            i as int,
                            self.entries@[i as int],
                            p,
                        );
                    }
                }
                Ok(())
            },
        }
    }

    /// Fetch the most recent entry for `path` in a cache: record the access
    /// at `now` and reconstruct the archive bytes from its stored chunks.
    pub fn fetch_entry(&mut self, cache_id: u64, path: &Vec<u8>, now: u64) -> (r: Result<
        Vec<u8>,
        CacheError,
    >)
        requires
            old(self).wf(),
        ensures
            final(self).wf(),
            (r is Ok) == (has_cache(old(self).caches@, cache_id) && exists|i: int|
                0 <= i < old(self).entries@.len() && entry_matches(
                    #[trigger] old(self).entries@[i],
                    cache_id,
                    path@,
                )),
            r == Err::<Vec<u8>, CacheError>(CacheError::CacheNotFound) <==> !has_cache(
                old(self).caches@,
                cache_id,
            ),
            r is Err ==> (r == Err::<Vec<u8>, CacheError>(CacheError::CacheNotFound) || r == Err::<
                Vec<u8>,
                CacheError,
            >(CacheError::EntryNotFound)) && *final(self) == *old(self),
            r matches Ok(v) ==> exists|i: int|
                0 <= i < old(self).entries@.len() && entry_matches(
                    #[trigger] old(self).entries@[i],
                    cache_id,
                    path@,
                ) && v@ == content_of(old(self).entries@[i].manifest) && (forall|t: int|
                    0 <= t < old(self).entries@.len() && entry_matches(
                        #[trigger] old(self).entries@[t],
                        cache_id,
                        path@,
                    ) ==> old(self).entries@[t].id <= old(self).entries@[i].id) && final(self).entries@ == old(self).entries@.update(
                    i,
                    (Entry {
                        id: old(self).entries@[i].id,
                        cache_id: old(self).entries@[i].cache_id,
                        path: old(self).entries@[i].path,
                        last_accessed: now,
                        manifest: old(self).entries@[i].manifest,
                    }),
                ),
            final(self).caches == old(self).caches,
            final(self).rows == old(self).rows,
            final(self).leases == old(self).leases,
            final(self).store == old(self).store,
            final(self).next_cache_id == old(self).next_cache_id,
            final(self).next_entry_id == old(self).next_entry_id,
            final(self).next_lease_id == old(self).next_lease_id,
            final(self).schema_version == old(self).schema_version,
    {
        let id = match self.lookup_entry(cache_id, path) {
            Err(e) => {
                return Err(e);
            },
            Ok(id) => id,
        };
        let ghost i1 = choose|i: int|
            0 <= i < self.entries@.len() && entry_matches(
                #[trigger] self.entries@[i],
                cache_id,
                path@,
            ) && self.entries@[i].id == id && (forall|t: int|
                0 <= t < self.entries@.len() && entry_matches(
                    #[trigger] self.entries@[t],
                    cache_id,
                    path@,
                ) ==> self.entries@[t].id <= id);
        match self.touch_entry(id, now) {
            Err(_) => {
                proof {
                    assert(false);
                }
                return Err(CacheError::EntryNotFound);
            },
            Ok(()) => {},
        }
        proof {
            let i2 = choose|i: int|
                0 <= i < old(self).entries@.len() && (#[trigger] old(self).entries@[i]).id == id
                    && self.entries@ == old(self).entries@.update(
                    i,
                    (Entry {
                        id: id,
                        cache_id: old(self).entries@[i].cache_id,
                        path: old(self).entries@[i].path,
                        last_accessed: now,
                        manifest: old(self).entries@[i].manifest,
                    }),
                );
            if i1 != i2 {
                assert(old(self).entries@[i1].id == old(self).entries@[i2].id);
                assert(false);
            }
        }
        match self.read_entry(id) {
            Err(_) => {
                proof {
                    let i3 = choose|i: int|
                        0 <= i < self.entries@.len() && (#[trigger] self.entries@[i]).id == id;
                    assert(self.entries@[i1].id == id);
                    assert(false);
                }
                Err(CacheError::EntryNotFound)
            },
            Ok(v) => {
                proof {
                    let i4 = choose|i: int|
                        0 <= i < self.entries@.len() && (#[trigger] self.entries@[i]).id == id && v@
                            == content_of(self.entries@[i].manifest);
                    if i4 != i1 {
                        assert(self.entries@[i4].id == self.entries@[i1].id);
                        assert(false);
                    }
                    assert(v@ == content_of(old(self).entries@[i1].manifest));
                }
                Ok(v)
            },
        }
    }

    /// Reconstruct an entry's archive bytes from its manifest's chunks, in
    /// order, decompressed. Under the invariant this always succeeds for a
    /// committed entry and reproduces the ingested bytes exactly.
    pub fn read_entry(&self, entry_id: u64) -> (r: Result<Vec<u8>, CacheError>)
        requires
            self.wf(),
        ensures
            (r is Ok) == (exists|i: int|
                0 <= i < self.entries@.len() && (#[trigger] self.entries@[i]).id == entry_id),
            r is Err ==> r == Err::<Vec<u8>, CacheError>(CacheError::EntryNotFound),
            r matches Ok(v) ==> exists|i: int|
                0 <= i < self.entries@.len() && (#[trigger] self.entries@[i]).id == entry_id && v@
                    == content_of(self.entries@[i].manifest),
    {
        broadcast use Seq::lemma_flatten_push;

        let ei = match find_entry_index(&self.entries, entry_id) {
            None => {
                return Err(CacheError::EntryNotFound);
            },
            Some(i) => i,
        };
        let ghost m = self.entries@[ei as int].manifest;
        let ghost keys = manifest_keys(m);
        let mut out: Vec<u8> = Vec::new();
        let mut j: usize = 0;
        proof {
            assert(keys.take(0) =~= Seq::<Seq<u8>>::empty());
            assert(out@ =~= keys.take(0).flatten());
        }
        while j < self.entries[ei].manifest.chunks.len()
            invariant
                self.wf(),
                ei < self.entries@.len(),
                self.entries@[ei as int].id == entry_id,
                m == self.entries@[ei as int].manifest,
                keys == manifest_keys(m),
                j <= m.chunks@.len(),
                out@ == keys.take(j as int).flatten(),
            decreases m.chunks@.len() - j,
        {
            let key = &self.entries[ei].manifest.chunks[j].key;
            proof {
                assert(key@ == keys[j as int]);
                assert(has_row(self.rows@, key@));
                let u = choose|u: int| 0 <= u < self.rows@.len() && self.rows@[u].key@ == key@;
                assert(has_blob(self.store.blobs@, key@));
            }
            let payload = match self.store.get(key) {
                None => {
                    return Err(CacheError::EntryNotFound);
                },
                Some(p) => p,
            };
            proof {
                let b = crate::store::blob_index(self.store.blobs@, key@);
                assert(0 <= b < self.store.blobs@.len() && self.store.blobs@[b].key@ == key@);
                assert(crate::codec::rle_decode(payload@) == Some(key@));
            }
            let mut bytes = match crate::codec::decompress(payload) {
                None => {
                    proof {
                        assert(false);
                    }
                    return Err(CacheError::EntryNotFound);
                },
                Some(b) => b,
            };
            proof {
                assert(bytes@ == key@);
            }
            out.append(&mut bytes);
            proof {
                assert(keys.take(j + 1) =~= keys.take(j as int).push(keys[j as int]));
                keys.take(j as int).lemma_flatten_push(keys[j as int]);
                assert(out@ == keys.take(j + 1).flatten());
            }
            j = j + 1;
        }
        proof {
            assert(keys.take(m.chunks@.len() as int) =~= keys);
            assert(out@ == content_of(m));
        }
        Ok(out)
    }
}

} // verus!
