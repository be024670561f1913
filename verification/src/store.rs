//! The chunk store: durable blob storage addressed by chunk key.
//!
//! Every operation is keyed by the chunk's content-addressing key, never by a
//! caller-supplied name. `put` is idempotent: content that is already present
//! is never rewritten, so concurrent writers of identical content race
//! harmlessly. Consistency across chunks is owned by the metadata, not here.

use vstd::prelude::*;

verus! {

/// One stored blob: the chunk's content-addressing key and its compressed
/// payload.
pub struct Blob {
    pub key: Vec<u8>,
    pub data: Vec<u8>,
}

/// Whether a blob with key `k` is present.
pub open spec fn has_blob(blobs: Seq<Blob>, k: Seq<u8>) -> bool {
    exists|i: int| 0 <= i < blobs.len() && blobs[i].key@ == k
}

/// The index of the blob with key `k` (unique when keys are unique).
pub open spec fn blob_index(blobs: Seq<Blob>, k: Seq<u8>) -> int {
    choose|i: int| 0 <= i < blobs.len() && blobs[i].key@ == k
}

/// The stored payload of the blob with key `k`.
pub open spec fn blob_value(blobs: Seq<Blob>, k: Seq<u8>) -> Seq<u8> {
    blobs[blob_index(blobs, k)].data@
}

/// No two blobs share a key.
pub open spec fn blob_keys_unique(blobs: Seq<Blob>) -> bool {
    forall|i: int, j: int|
        0 <= i < j < blobs.len() ==> blobs[i].key@ != blobs[j].key@
}

/// With unique keys, the blob at any index with key `k` is the blob that
/// `blob_value` speaks of.
pub proof fn lemma_blob_value_at(blobs: Seq<Blob>, i: int)
    requires
        blob_keys_unique(blobs),
        0 <= i < blobs.len(),
    ensures
        blob_index(blobs, blobs[i].key@) == i,
        blob_value(blobs, blobs[i].key@) == blobs[i].data@,
{
    let k = blobs[i].key@;
    assert(has_blob(blobs, k));
    let j = blob_index(blobs, k);
    if i < j {
        assert(blobs[i].key@ != blobs[j].key@);
    } else if j < i {
        assert(blobs[j].key@ != blobs[i].key@);
    }
}

/// Byte-wise equality of two buffers.
pub fn bytes_eq(a: &Vec<u8>, b: &Vec<u8>) -> (r: bool)
    ensures
        r == (a@ == b@),
{
    if a.len() != b.len() {
        return false;
    }
    let mut k: usize = 0;
    while k < a.len()
        invariant
            k <= a.len(),
            a@.len() == b@.len(),
            forall|j: int| 0 <= j < k ==> a@[j] == b@[j],
        decreases a.len() - k,
    {
        if a[k] != b[k] {
            return false;
        }
        k = k + 1;
    }
    proof {
        assert(a@ =~= b@);
    }
    true
}

/// An owned copy of a byte buffer.
pub fn clone_bytes(v: &Vec<u8>) -> (r: Vec<u8>)
    ensures
        r@ == v@,
{
    let mut r: Vec<u8> = Vec::new();
    let mut k: usize = 0;
    while k < v.len()
        invariant
            k <= v.len(),
            r@ == v@.take(k as int),
        decreases v.len() - k,
    {
        r.push(v[k]);
        proof {
            assert(v@.take(k + 1) =~= v@.take(k as int).push(v@[k as int]));
        }
        k = k + 1;
    }
    proof {
        assert(v@.take(v@.len() as int) =~= v@);
    }
    r
}

/// Content-addressed blob storage.
pub struct ChunkStore {
    pub blobs: Vec<Blob>,
}

impl ChunkStore {
    /// An empty store.
    pub fn new() -> (s: ChunkStore)
        ensures
            s.blobs@.len() == 0,
    {
        ChunkStore { blobs: Vec::new() }
    }

    /// Whether content with key `key` is already stored.
    pub fn contains(&self, key: &Vec<u8>) -> (r: bool)
        ensures
            r == has_blob(self.blobs@, key@),
    {
        let mut i: usize = 0;
        while i < self.blobs.len()
            invariant
                i <= self.blobs@.len(),
                forall|j: int| 0 <= j < i ==> #[trigger] self.blobs@[j].key@ != key@,
            decreases self.blobs@.len() - i,
        {
            if bytes_eq(&self.blobs[i].key, key) {
                return true;
            }
            i = i + 1;
        }
        false
    }

    /// Store content under its key; a no-op when the key is already present.
    pub fn put(&mut self, key: Vec<u8>, data: Vec<u8>) -> (stored: bool)
        ensures
            stored == !has_blob(old(self).blobs@, key@),
            !stored ==> final(self).blobs@ == old(self).blobs@,
            stored ==> final(self).blobs@ == old(self).blobs@.push(
                (Blob { key: key, data: data }),
            ),
    {
        if self.contains(&key) {
            false
        } else {
            self.blobs.push(Blob { key, data });
            true
        }
    }

    /// Fetch the payload stored under `key`.
    pub fn get(&self, key: &Vec<u8>) -> (r: Option<&Vec<u8>>)
        requires
            blob_keys_unique(self.blobs@),
        ensures
            match r {
                Some(d) => has_blob(self.blobs@, key@) && d@ == blob_value(self.blobs@, key@),
                None => !has_blob(self.blobs@, key@),
            },
    {
        let mut i: usize = 0;
        while i < self.blobs.len()
            invariant
                i <= self.blobs@.len(),
                blob_keys_unique(self.blobs@),
                forall|j: int| 0 <= j < i ==> #[trigger] self.blobs@[j].key@ != key@,
            decreases self.blobs@.len() - i,
        {
            if bytes_eq(&self.blobs[i].key, key) {
                proof {
                    lemma_blob_value_at(self.blobs@, i as int);
                }
                return Some(&self.blobs[i].data);
            }
            i = i + 1;
        }
        None
    }

    /// Delete the blob stored under `key`; reports whether it was present.
    pub fn delete(&mut self, key: &Vec<u8>) -> (r: bool)
        requires
            blob_keys_unique(old(self).blobs@),
        ensures
            r == has_blob(old(self).blobs@, key@),
            !has_blob(final(self).blobs@, key@),
            blob_keys_unique(final(self).blobs@),
            final(self).blobs@.len() == old(self).blobs@.len() - (if r {
                1int
            } else {
                0int
            }),
            forall|k2: Seq<u8>|
                k2 != key@ ==> #[trigger] has_blob(final(self).blobs@, k2) == has_blob(
                    old(self).blobs@,
                    k2,
                ),
            forall|k2: Seq<u8>|
                k2 != key@ && has_blob(old(self).blobs@, k2) ==> #[trigger] blob_value(
                    final(self).blobs@,
                    k2,
                ) == blob_value(old(self).blobs@, k2),
    {
        let mut i: usize = 0;
        while i < self.blobs.len()
            invariant
                i <= self.blobs@.len(),
                blob_keys_unique(self.blobs@),
                self.blobs@ == old(self).blobs@,
                forall|j: int| 0 <= j < i ==> #[trigger] self.blobs@[j].key@ != key@,
            decreases self.blobs@.len() - i,
        {
            if bytes_eq(&self.blobs[i].key, key) {
                let ghost pre = self.blobs@;
                self.blobs.remove(i);
                proof {
                    lemma_blob_removed(pre, i as int);
                }
                return true;
            }
            i = i + 1;
        }
        false
    }
}

/// Removing one blob removes exactly its key and preserves all others.
proof fn lemma_blob_removed(pre: Seq<Blob>, i: int)
    requires
        blob_keys_unique(pre),
        0 <= i < pre.len(),
    ensures
        !has_blob(pre.remove(i), pre[i].key@),
        blob_keys_unique(pre.remove(i)),
        forall|k2: Seq<u8>|
            k2 != pre[i].key@ ==> #[trigger] has_blob(pre.remove(i), k2) == has_blob(pre, k2),
        forall|k2: Seq<u8>|
            k2 != pre[i].key@ && has_blob(pre, k2) ==> #[trigger] blob_value(pre.remove(i), k2)
                == blob_value(pre, k2),
{
    let post = pre.remove(i);
    assert forall|j: int| 0 <= j < post.len() implies #[trigger] post[j] == (if j < i {
        pre[j]
    } else {
        pre[j + 1]
    }) by {}
    assert forall|k2: Seq<u8>| k2 != pre[i].key@ implies #[trigger] has_blob(post, k2) == has_blob(
        pre,
        k2,
    ) by {
        if has_blob(pre, k2) {
            let j = choose|j: int| 0 <= j < pre.len() && pre[j].key@ == k2;
            if j < i {
                assert(post[j].key@ == k2);
            } else {
                assert(post[j - 1].key@ == k2);
            }
        }
        if has_blob(post, k2) {
            let j = choose|j: int| 0 <= j < post.len() && post[j].key@ == k2;
            if j < i {
                assert(pre[j].key@ == k2);
            } else {
                assert(pre[j + 1].key@ == k2);
            }
        }
    }
    assert forall|k2: Seq<u8>| k2 != pre[i].key@ && has_blob(pre, k2) implies #[trigger] blob_value(
        post,
        k2,
    ) == blob_value(pre, k2) by {
        let j = choose|j: int| 0 <= j < pre.len() && pre[j].key@ == k2;
        lemma_blob_value_at(pre, j);
        if j < i {
            lemma_blob_value_at(post, j);
        } else {
            lemma_blob_value_at(post, j - 1);
        }
    }
}

} // verus!
