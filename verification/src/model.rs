//! The metadata model: caches, entries, chunk rows, upload leases, and the
//! well-formedness invariant that ties them to the chunk store.
//!
//! The invariant `CacheServer::wf` carries the two central guarantees:
//! every committed manifest references only chunks that have a metadata row
//! and a stored blob (no dangling references), and every chunk row's stored
//! reference count equals the number of committed entries whose manifest
//! lists that chunk (reference counts are derived state).

use vstd::prelude::*;
use crate::codec;
use crate::store::ChunkStore;
use crate::store::blob_keys_unique;
use crate::store::has_blob;

verus! {

/// Per-cache rule deciding which entries survive a sweep.
#[derive(Clone, Copy, Debug)]
pub enum RetentionPolicy {
    /// Keep every entry.
    Unlimited,
    /// Keep entries whose last access is within `duration` of the sweep time.
    KeepWithin { duration: u64 },
    /// Keep the `count` most recently committed entries per distinct path.
    KeepLast { count: u64 },
}

/// A named namespace of archive entries.
pub struct Cache {
    pub id: u64,
    pub name: Vec<u8>,
    pub policy: RetentionPolicy,
}

/// One chunk reference in a manifest: the chunk's content-addressing key and
/// its uncompressed size.
pub struct ChunkRef {
    pub key: Vec<u8>,
    pub size: u64,
}

/// Ordered chunk references plus the total uncompressed size of the archive.
pub struct Manifest {
    pub chunks: Vec<ChunkRef>,
    pub total_size: u64,
}

/// One committed archive within a cache. Entry ids increase in commit order,
/// so they double as creation order for retention decisions.
pub struct Entry {
    pub id: u64,
    pub cache_id: u64,
    pub path: Vec<u8>,
    pub last_accessed: u64,
    pub manifest: Manifest,
}

/// Metadata row of one stored chunk.
pub struct ChunkRow {
    pub key: Vec<u8>,
    pub refcount: u64,
    pub size_compressed: u64,
    pub size_uncompressed: u64,
}

/// Protection record for an in-flight upload: the chunks it has staged must
/// not be reclaimed while the lease is unexpired.
pub struct Lease {
    pub id: u64,
    pub expires_at: u64,
    pub chunks: Vec<Vec<u8>>,
}

/// Why a metadata operation was refused.
#[derive(Clone, Copy, Debug, PartialEq, Eq, Structural)]
pub enum CacheError {
    CacheNotFound,
    CacheNameTaken,
    InvalidPolicy,
    EntryNotFound,
    LeaseNotFound,
    LeaseExpired,
    ChunkNotStaged,
}

/// What one sweep reclaimed.
#[derive(Clone, Copy, Debug, PartialEq, Eq, Structural)]
pub struct SweepStats {
    pub entries_deleted: u64,
    pub chunks_deleted: u64,
    pub leases_expired: u64,
    pub bytes_reclaimed: u64,
}

/// The keys referenced by a manifest, in order.
pub open spec fn manifest_keys(m: Manifest) -> Seq<Seq<u8>> {
    m.chunks@.map_values(|c: ChunkRef| c.key@)
}

/// The archive content a manifest describes: its chunks' uncompressed bytes,
/// in order. Chunk keys are the uncompressed chunk contents themselves, the
/// one content-addressing function that is exactly injective.
pub open spec fn content_of(m: Manifest) -> Seq<u8> {
    manifest_keys(m).flatten()
}

/// Whether a manifest references chunk key `k`.
pub open spec fn manifest_has(m: Manifest, k: Seq<u8>) -> bool {
    exists|i: int| 0 <= i < m.chunks@.len() && m.chunks@[i].key@ == k
}

/// A manifest is well formed when each reference's size is its chunk's
/// uncompressed size and the total is the whole archive's size.
pub open spec fn manifest_wf(m: Manifest) -> bool {
    &&& forall|i: int|
        0 <= i < m.chunks@.len() ==> (#[trigger] m.chunks@[i]).size == m.chunks@[i].key@.len()
    &&& m.total_size == content_of(m).len()
}

/// The number of committed entries whose manifest references chunk key `k`.
pub open spec fn count_refs(entries: Seq<Entry>, k: Seq<u8>) -> nat {
    entries.filter(|e: Entry| manifest_has(e.manifest, k)).len()
}

/// The total uncompressed bytes the chunk rows account for.
pub open spec fn rows_bytes(rows: Seq<ChunkRow>) -> int
    decreases rows.len(),
{
    if rows.len() == 0 {
        0
    } else {
        rows_bytes(rows.drop_last()) + rows.last().size_uncompressed
    }
}

/// Pushing a row adds exactly its uncompressed size to the total.
pub proof fn lemma_rows_bytes_push(rows: Seq<ChunkRow>, r: ChunkRow)
    ensures
        rows_bytes(rows.push(r)) == rows_bytes(rows) + r.size_uncompressed,
{
    assert(rows.push(r).drop_last() =~= rows);
}

/// Whether a chunk row with key `k` exists.
pub open spec fn has_row(rows: Seq<ChunkRow>, k: Seq<u8>) -> bool {
    exists|i: int| 0 <= i < rows.len() && rows[i].key@ == k
}

/// Whether a cache with id `id` exists.
pub open spec fn has_cache(caches: Seq<Cache>, id: u64) -> bool {
    exists|i: int| 0 <= i < caches.len() && caches[i].id == id
}

/// The retention policy of the cache with id `id`.
pub open spec fn policy_of(caches: Seq<Cache>, id: u64) -> RetentionPolicy
    decreases caches.len(),
{
    if caches.len() == 0 {
        RetentionPolicy::Unlimited
    } else if caches[0].id == id {
        caches[0].policy
    } else {
        policy_of(caches.drop_first(), id)
    }
}

/// Whether a lease names chunk key `k`.
pub open spec fn lease_has(l: Lease, k: Seq<u8>) -> bool {
    exists|i: int| 0 <= i < l.chunks@.len() && l.chunks@[i]@ == k
}

/// Whether some lease that is still unexpired at `now` names chunk key `k`.
pub open spec fn covered(leases: Seq<Lease>, now: u64, k: Seq<u8>) -> bool {
    exists|i: int| 0 <= i < leases.len() && now < leases[i].expires_at && lease_has(leases[i], k)
}

/// Whether a lease with id `id` exists.
pub open spec fn has_lease(leases: Seq<Lease>, id: u64) -> bool {
    exists|i: int| 0 <= i < leases.len() && leases[i].id == id
}

/// The schema version this code expects the metadata store to be at.
pub const SCHEMA_VERSION: u64 = 1;

/// The whole subsystem: metadata plus the chunk store it governs.
pub struct CacheServer {
    pub caches: Vec<Cache>,
    pub entries: Vec<Entry>,
    pub rows: Vec<ChunkRow>,
    pub leases: Vec<Lease>,
    pub store: ChunkStore,
    pub next_cache_id: u64,
    pub next_entry_id: u64,
    pub next_lease_id: u64,
    pub schema_version: u64,
}

impl CacheServer {
    /// The well-formedness invariant, established by `new` and preserved by
    /// every operation.
    pub open spec fn wf(self) -> bool {
        &&& forall|i: int, j: int|
            0 <= i < j < self.caches@.len() ==> self.caches@[i].id != self.caches@[j].id
                && self.caches@[i].name@ != self.caches@[j].name@
        &&& forall|i: int, j: int|
            0 <= i < j < self.entries@.len() ==> self.entries@[i].id != self.entries@[j].id
        &&& forall|i: int, j: int|
            0 <= i < j < self.rows@.len() ==> self.rows@[i].key@ != self.rows@[j].key@
        &&& forall|i: int, j: int|
            0 <= i < j < self.leases@.len() ==> self.leases@[i].id != self.leases@[j].id
        &&& blob_keys_unique(self.store.blobs@)
        &&& forall|i: int|
            0 <= i < self.caches@.len() ==> (#[trigger] self.caches@[i]).id < self.next_cache_id
        &&& forall|i: int|
            0 <= i < self.entries@.len() ==> (#[trigger] self.entries@[i]).id < self.next_entry_id
        &&& forall|i: int|
            0 <= i < self.leases@.len() ==> (#[trigger] self.leases@[i]).id < self.next_lease_id
        &&& forall|i: int|
            0 <= i < self.entries@.len() ==> manifest_wf((#[trigger] self.entries@[i]).manifest)
                && has_cache(self.caches@, self.entries@[i].cache_id)
        &&& forall|i: int, j: int|
            0 <= i < self.entries@.len() && 0 <= j < self.entries@[i].manifest.chunks@.len()
                ==> has_row(self.rows@, (#[trigger] self.entries@[i].manifest.chunks@[j]).key@)
        &&& forall|i: int, j: int|
            0 <= i < self.leases@.len() && 0 <= j < self.leases@[i].chunks@.len() ==> has_row(
                self.rows@,
                (#[trigger] self.leases@[i].chunks@[j])@,
            )
        &&& forall|i: int|
            0 <= i < self.rows@.len() ==> (#[trigger] self.rows@[i]).refcount == count_refs(
                self.entries@,
                self.rows@[i].key@,
            )
        &&& forall|i: int|
            0 <= i < self.rows@.len() ==> (#[trigger] self.rows@[i]).size_uncompressed
                == self.rows@[i].key@.len()
        &&& forall|i: int|
            0 <= i < self.rows@.len() ==> has_blob(
                self.store.blobs@,
                (#[trigger] self.rows@[i]).key@,
            )
        &&& forall|i: int|
            0 <= i < self.store.blobs@.len() ==> has_row(
                self.rows@,
                (#[trigger] self.store.blobs@[i]).key@,
            )
        &&& forall|i: int|
            0 <= i < self.store.blobs@.len() ==> codec::rle_decode(
                (#[trigger] self.store.blobs@[i]).data@,
            ) == Some(self.store.blobs@[i].key@)
    }
}

/// Every element of a filtered sequence occurs in the original.
pub proof fn lemma_filter_elem<A>(s: Seq<A>, p: spec_fn(A) -> bool, i: int)
    requires
        0 <= i < s.filter(p).len(),
    ensures
        exists|j: int| 0 <= j < s.len() && s[j] == s.filter(p)[i],
    decreases s.len(),
{
    reveal(Seq::filter);
    if s.len() > 0 {
        let t = s.drop_last();
        if i < t.filter(p).len() {
            lemma_filter_elem(t, p, i);
            let j = choose|j: int| 0 <= j < t.len() && t[j] == t.filter(p)[i];
            assert(s[j] == s.filter(p)[i]);
        } else {
            assert(s[s.len() - 1] == s.filter(p)[i]);
        }
    }
}

/// The filter of a one-element sequence.
pub proof fn lemma_filter_singleton<A>(x: A, p: spec_fn(A) -> bool)
    ensures
        seq![x].filter(p) == if p(x) {
            seq![x]
        } else {
            Seq::<A>::empty()
        },
{
    broadcast use Seq::lemma_filter_push;

    reveal(Seq::filter);
    assert(Seq::<A>::empty().push(x) =~= seq![x]);
    assert(Seq::<A>::empty().filter(p) == Seq::<A>::empty());
}

/// Replacing an element by one on which the predicate agrees keeps the
/// filtered length unchanged.
pub proof fn lemma_filter_update_len<A>(s: Seq<A>, i: int, x: A, p: spec_fn(A) -> bool)
    requires
        0 <= i < s.len(),
        p(x) == p(s[i]),
    ensures
        s.update(i, x).filter(p).len() == s.filter(p).len(),
{
    let left = s.take(i);
    let right = s.skip(i + 1);
    assert(s =~= left + seq![s[i]] + right);
    assert(s.update(i, x) =~= left + seq![x] + right);
    Seq::filter_distributes_over_add(left + seq![s[i]], right, p);
    Seq::filter_distributes_over_add(left, seq![s[i]], p);
    Seq::filter_distributes_over_add(left + seq![x], right, p);
    Seq::filter_distributes_over_add(left, seq![x], p);
    lemma_filter_singleton(s[i], p);
    lemma_filter_singleton(x, p);
}

/// Removing element `i` lowers a filtered length by one exactly when the
/// element satisfies the predicate.
pub proof fn lemma_filter_remove<A>(s: Seq<A>, p: spec_fn(A) -> bool, i: int)
    requires
        0 <= i < s.len(),
    ensures
        s.remove(i).filter(p).len() == s.filter(p).len() - (if p(s[i]) {
            1int
        } else {
            0int
        }),
{
    let left = s.take(i);
    let right = s.skip(i + 1);
    assert(s =~= left + seq![s[i]] + right);
    assert(s.remove(i) =~= left + right);
    Seq::filter_distributes_over_add(left + seq![s[i]], right, p);
    Seq::filter_distributes_over_add(left, seq![s[i]], p);
    Seq::filter_distributes_over_add(left, right, p);
    lemma_filter_singleton(s[i], p);
}

/// If no entry references `k`, the reference count of `k` is zero; more
/// generally a positive count names a witness entry.
pub proof fn lemma_count_refs_witness(entries: Seq<Entry>, k: Seq<u8>)
    requires
        count_refs(entries, k) > 0,
    ensures
        exists|j: int|
            0 <= j < entries.len() && manifest_has((#[trigger] entries[j]).manifest, k),
{
    let p = |e: Entry| manifest_has(e.manifest, k);
    broadcast use vstd::seq_lib::group_filter_ensures;

    lemma_filter_elem(entries, p, 0);
    let j = choose|j: int| 0 <= j < entries.len() && entries[j] == entries.filter(p)[0];
    assert(p(entries.filter(p)[0]));
    assert(manifest_has(entries[j].manifest, k));
}

/// The reference count never exceeds the number of committed entries.
pub proof fn lemma_count_refs_bound(entries: Seq<Entry>, k: Seq<u8>)
    ensures
        count_refs(entries, k) <= entries.len(),
{
    broadcast use vstd::seq_lib::group_filter_ensures;

}

} // verus!
