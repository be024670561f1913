//! The store's standing guarantees, stated as proved facts over any
//! well-formed state. Every operation of `CacheServer` requires and preserves
//! `wf`, so these hold between any two operations.

use vstd::prelude::*;
use crate::codec;
use crate::model::CacheServer;
use crate::model::count_refs;
use crate::model::has_row;
use crate::store::has_blob;

verus! {

/// No dangling manifest: every chunk a committed entry's manifest references
/// has a metadata row and a stored blob, at all times the entry exists.
pub proof fn lemma_no_dangling_manifest(s: CacheServer)
    requires
        s.wf(),
    ensures
        forall|i: int, j: int|
            0 <= i < s.entries@.len() && 0 <= j < s.entries@[i].manifest.chunks@.len() ==> has_row(
                s.rows@,
                (#[trigger] s.entries@[i].manifest.chunks@[j]).key@,
            ) && has_blob(s.store.blobs@, s.entries@[i].manifest.chunks@[j].key@),
{
    assert forall|i: int, j: int|
        0 <= i < s.entries@.len() && 0 <= j < s.entries@[i].manifest.chunks@.len() implies has_row(
        s.rows@,
        (#[trigger] s.entries@[i].manifest.chunks@[j]).key@,
    ) && has_blob(s.store.blobs@, s.entries@[i].manifest.chunks@[j].key@) by {
        let k = s.entries@[i].manifest.chunks@[j].key@;
        assert(has_row(s.rows@, k));
        let u = choose|u: int| 0 <= u < s.rows@.len() && s.rows@[u].key@ == k;
        assert(has_blob(s.store.blobs@, s.rows@[u].key@));
    }
}

/// Reference-count consistency: every chunk row's stored count equals the
/// number of committed entries whose manifest lists that chunk.
pub proof fn lemma_refcount_consistency(s: CacheServer)
    requires
        s.wf(),
    ensures
        forall|i: int|
            0 <= i < s.rows@.len() ==> (#[trigger] s.rows@[i]).refcount == count_refs(
                s.entries@,
                s.rows@[i].key@,
            ),
{
}

/// Dedup: chunk content is stored exactly once — no two blobs and no two
/// metadata rows share a content-addressing key, however many entries across
/// however many caches reference the content.
pub proof fn lemma_single_copy(s: CacheServer)
    requires
        s.wf(),
    ensures
        forall|i: int, j: int|
            0 <= i < j < s.store.blobs@.len() ==> s.store.blobs@[i].key@ != s.store.blobs@[j].key@,
        forall|i: int, j: int|
            0 <= i < j < s.rows@.len() ==> s.rows@[i].key@ != s.rows@[j].key@,
{
}

/// Content addressing is never violated: every stored blob decompresses to
/// exactly the chunk content its key names, so reconstructing an archive
/// from stored chunks reproduces the ingested bytes.
pub proof fn lemma_blob_integrity(s: CacheServer)
    requires
        s.wf(),
    ensures
        forall|i: int|
            0 <= i < s.store.blobs@.len() ==> codec::rle_decode(
                (#[trigger] s.store.blobs@[i]).data@,
            ) == Some(s.store.blobs@[i].key@),
{
}

} // verus!
