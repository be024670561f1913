//! The retention/GC engine.
//!
//! One sweep runs four phases over a consistent snapshot: remove expired
//! leases; select the entries each cache's retention policy retains, judged
//! against the snapshot; expire the others, lowering the reference counts of
//! the chunks their manifests listed; and reclaim every chunk whose count is
//! zero and that no unexpired lease names, deleting its row and its blob.
//! The sweep's contract pins each phase, states lease protection (a chunk
//! named by an unexpired lease is never deleted), and states idempotence: a
//! sweep leaves a state on which a second sweep at the same time deletes
//! nothing and changes nothing.

use vstd::prelude::*;
use crate::model::Cache;
use crate::model::CacheError;
use crate::model::CacheServer;
use crate::model::ChunkRow;
use crate::model::Entry;
use crate::model::Lease;
use crate::model::Manifest;
use crate::model::RetentionPolicy;
use crate::model::SweepStats;
use crate::model::count_refs;
use crate::model::has_cache;
use crate::model::covered;
use crate::model::has_row;
use crate::model::lease_has;
use crate::model::manifest_has;
use crate::model::policy_of;
use crate::server::lease_contains_key;
use crate::server::manifest_has_prefix;
use crate::store::blob_value;
use crate::store::has_blob;

verus! {

/// Whether `x` was committed later than `e` for the same cache and path.
pub open spec fn newer_for(x: Entry, e: Entry) -> bool {
    x.cache_id == e.cache_id && x.path@ == e.path@ && x.id > e.id
}

/// How many entries of `s` are newer than `e` for the same cache and path.
pub open spec fn count_newer(s: Seq<Entry>, e: Entry) -> nat
    decreases s.len(),
{
    if s.len() == 0 {
        0
    } else {
        count_newer(s.drop_last(), e) + (if newer_for(s.last(), e) {
            1nat
        } else {
            0nat
        })
    }
}

/// Whether the policy of `e`'s cache retains `e` at sweep time `now`, judged
/// against the snapshot `entries`.
pub open spec fn retained(entries: Seq<Entry>, caches: Seq<Cache>, now: u64, e: Entry) -> bool {
    match policy_of(caches, e.cache_id) {
        RetentionPolicy::Unlimited => true,
        RetentionPolicy::KeepWithin { duration } => e.last_accessed + duration >= now,
        RetentionPolicy::KeepLast { count } => count_newer(entries, e) < count,
    }
}

/// Whether a chunk row may not be reclaimed at `now`: it is still referenced
/// or an unexpired lease names it.
pub open spec fn row_alive(r: ChunkRow, leases: Seq<Lease>, now: u64) -> bool {
    r.refcount > 0 || covered(leases, now, r.key@)
}

/// The lease-expiry predicate of a sweep at `now`.
pub open spec fn active_at(now: u64) -> spec_fn(Lease) -> bool {
    |l: Lease| now < l.expires_at
}

/// The retention predicate of a sweep at `now`, judged against snapshots of
/// the entries and the cache configuration.
pub open spec fn retained_in(entries: Seq<Entry>, caches: Seq<Cache>, now: u64) -> spec_fn(
    Entry,
) -> bool {
    |e: Entry| retained(entries, caches, now, e)
}

/// The reclamation predicate of a sweep at `now`, judged against the leases
/// that survived the expiry phase.
pub open spec fn alive_in(leases: Seq<Lease>, now: u64) -> spec_fn(ChunkRow) -> bool {
    |r: ChunkRow| row_alive(r, leases, now)
}

/// The predicate selecting the entries that survive deleting a cache.
pub open spec fn outside_cache(cache_id: u64) -> spec_fn(Entry) -> bool {
    |e: Entry| e.cache_id != cache_id
}

/// A state a sweep at `now` has nothing left to do on: every lease is
/// unexpired, every entry is retained by its policy, and every chunk row is
/// referenced or lease-protected.
pub open spec fn quiescent(s: CacheServer, now: u64) -> bool {
    &&& forall|i: int| 0 <= i < s.leases@.len() ==> now < (#[trigger] s.leases@[i]).expires_at
    &&& forall|i: int|
        0 <= i < s.entries@.len() ==> retained(s.entries@, s.caches@, now, #[trigger] s.entries@[i])
    &&& forall|i: int| 0 <= i < s.rows@.len() ==> row_alive(#[trigger] s.rows@[i], s.leases@, now)
}

/// Dropping elements of a sequence can only lower the newer-count.
pub proof fn lemma_count_newer_filter(s: Seq<Entry>, p: spec_fn(Entry) -> bool, e: Entry)
    ensures
        count_newer(s.filter(p), e) <= count_newer(s, e),
    decreases s.len(),
{
    reveal(Seq::filter);
    if s.len() > 0 {
        let t = s.drop_last();
        let x = s.last();
        lemma_count_newer_filter(t, p, e);
        if p(x) {
            assert(s.filter(p) == t.filter(p).push(x));
            assert(t.filter(p).push(x).drop_last() =~= t.filter(p));
            assert(count_newer(t.filter(p).push(x), e) == count_newer(t.filter(p), e) + (
            if newer_for(x, e) {
                1nat
            } else {
                0nat
            }));
        }
    }
}

/// The retention policy of the cache with id `id`, from the configuration.
pub(crate) fn find_policy(caches: &Vec<Cache>, id: u64) -> (r: RetentionPolicy)
    ensures
        r == policy_of(caches@, id),
{
    let mut i: usize = 0;
    proof {
        assert(caches@.skip(0) =~= caches@);
    }
    while i < caches.len()
        invariant
            i <= caches@.len(),
            policy_of(caches@, id) == policy_of(caches@.skip(i as int), id),
        decreases caches@.len() - i,
    {
        proof {
            assert(caches@.skip(i as int)[0] == caches@[i as int]);
            assert(caches@.skip(i as int).drop_first() =~= caches@.skip(i + 1));
        }
        if caches[i].id == id {
            return caches[i].policy;
        }
        i = i + 1;
    }
    proof {
        assert(caches@.skip(caches@.len() as int).len() == 0);
    }
    RetentionPolicy::Unlimited
}

/// Count the entries newer than `e` for the same cache and path.
pub(crate) fn count_newer_exec(entries: &Vec<Entry>, e: &Entry) -> (r: usize)
    ensures
        r == count_newer(entries@, *e),
{
    let mut c: usize = 0;
    let mut i: usize = 0;
    proof {
        assert(entries@.take(0) =~= Seq::<Entry>::empty());
    }
    while i < entries.len()
        invariant
            i <= entries@.len(),
            c <= i,
            c == count_newer(entries@.take(i as int), *e),
        decreases entries@.len() - i,
    {
        let hit = entries[i].cache_id == e.cache_id && crate::store::bytes_eq(
            &entries[i].path,
            &e.path,
        ) && entries[i].id > e.id;
        proof {
            assert(entries@.take(i + 1).drop_last() =~= entries@.take(i as int));
            assert(entries@.take(i + 1).last() == entries@[i as int]);
            assert(hit == newer_for(entries@[i as int], *e));
        }
        if hit {
            c = c + 1;
        }
        i = i + 1;
    }
    proof {
        assert(entries@.take(entries@.len() as int) =~= entries@);
    }
    c
}

/// Whether any unexpired lease names chunk key `key`.
pub(crate) fn covered_exec(leases: &Vec<Lease>, now: u64, key: &Vec<u8>) -> (r: bool)
    ensures
        r == covered(leases@, now, key@),
{
    let mut i: usize = 0;
    while i < leases.len()
        invariant
            i <= leases@.len(),
            forall|j: int|
                0 <= j < i ==> !(now < (#[trigger] leases@[j]).expires_at && lease_has(
                    leases@[j],
                    key@,
                )),
        decreases leases@.len() - i,
    {
        if leases[i].expires_at > now && lease_contains_key(&leases[i], key) {
            return true;
        }
        i = i + 1;
    }
    false
}

impl CacheServer {
    /// Lower the reference count of every chunk a dropped manifest listed,
    /// once per distinct key.
    fn lower_refcounts(&mut self, m: &Manifest)
        requires
            forall|i: int, j: int|
                0 <= i < j < old(self).rows@.len() ==> old(self).rows@[i].key@ != old(
                    self,
                ).rows@[j].key@,
            forall|x: int|
                0 <= x < old(self).rows@.len() ==> (#[trigger] old(self).rows@[x]).refcount
                    == count_refs(old(self).entries@, old(self).rows@[x].key@) + (if manifest_has(
                    *m,
                    old(self).rows@[x].key@,
                ) {
                    1int
                } else {
                    0int
                }),
            forall|j: int|
                0 <= j < m.chunks@.len() ==> has_row(
                    old(self).rows@,
                    (#[trigger] m.chunks@[j]).key@,
                ),
        ensures
            final(self).caches == old(self).caches,
            final(self).entries == old(self).entries,
            final(self).leases == old(self).leases,
            final(self).store == old(self).store,
            final(self).next_cache_id == old(self).next_cache_id,
            final(self).next_entry_id == old(self).next_entry_id,
            final(self).next_lease_id == old(self).next_lease_id,
            final(self).schema_version == old(self).schema_version,
            final(self).rows@.len() == old(self).rows@.len(),
            forall|x: int|
                0 <= x < final(self).rows@.len() ==> (#[trigger] final(self).rows@[x]).key == old(
                    self,
                ).rows@[x].key && final(self).rows@[x].size_compressed == old(
                    self,
                ).rows@[x].size_compressed && final(self).rows@[x].size_uncompressed == old(
                    self,
                ).rows@[x].size_uncompressed,
            forall|x: int|
                0 <= x < final(self).rows@.len() ==> (#[trigger] final(self).rows@[x]).refcount
                    == count_refs(old(self).entries@, final(self).rows@[x].key@),
    {
        let mut j: usize = 0;
        while j < m.chunks.len()
            invariant
                j <= m.chunks@.len(),
                self.caches == old(self).caches,
                self.entries == old(self).entries,
                self.leases == old(self).leases,
                self.store == old(self).store,
                self.next_cache_id == old(self).next_cache_id,
                self.next_entry_id == old(self).next_entry_id,
                self.next_lease_id == old(self).next_lease_id,
                self.schema_version == old(self).schema_version,
                forall|i: int, j2: int|
                    0 <= i < j2 < old(self).rows@.len() ==> old(self).rows@[i].key@ != old(
                        self,
                    ).rows@[j2].key@,
                forall|j2: int|
                    0 <= j2 < m.chunks@.len() ==> has_row(
                        old(self).rows@,
                        (#[trigger] m.chunks@[j2]).key@,
                    ),
                self.rows@.len() == old(self).rows@.len(),
                forall|x: int|
                    0 <= x < self.rows@.len() ==> (#[trigger] self.rows@[x]).key == old(
                        self,
                    ).rows@[x].key && self.rows@[x].size_compressed == old(
                        self,
                    ).rows@[x].size_compressed && self.rows@[x].size_uncompressed == old(
                        self,
                    ).rows@[x].size_uncompressed,
                forall|x: int|
                    0 <= x < self.rows@.len() ==> (#[trigger] self.rows@[x]).refcount == count_refs(
                        old(self).entries@,
                        self.rows@[x].key@,
                    ) + (if manifest_has(*m, self.rows@[x].key@) && !manifest_has_prefix(
                        *m,
                        j as int,
                        self.rows@[x].key@,
                    ) {
                        1int
                    } else {
                        0int
                    }),
            decreases m.chunks@.len() - j,
        {
            let ghost key_v = m.chunks@[j as int].key@;
            let mut t: usize = 0;
            let mut seen = false;
            while t < j
                invariant
                    t <= j,
                    j < m.chunks@.len(),
                    seen ==> manifest_has_prefix(*m, j as int, m.chunks@[j as int].key@),
                    !seen ==> forall|u: int|
                        0 <= u < t ==> (#[trigger] m.chunks@[u]).key@ != m.chunks@[j as int].key@,
                decreases j - t,
            {
                if crate::store::bytes_eq(&m.chunks[t].key, &m.chunks[j].key) {
                    seen = true;
                    t = j;
                } else {
                    t = t + 1;
                }
            }
            if !seen {
                proof {
                    assert(!manifest_has_prefix(*m, j as int, key_v));
                    assert(has_row(old(self).rows@, key_v));
                    let u = choose|u: int|
                        0 <= u < old(self).rows@.len() && old(self).rows@[u].key@ == key_v;
                    assert(self.rows@[u].key@ == key_v);
                }
                let ri = match crate::server::find_row_index(&self.rows, &m.chunks[j].key) {
                    Some(i) => i,
                    None => {
                        proof {
                            assert(false);
                        }
                        return ;
                    },
                };
                let ghost pre_rows = self.rows@;
                let mut row = self.rows.remove(ri);
                proof {
                    assert(manifest_has(*m, row.key@));
                    assert(row.refcount >= 1);
                }
                row.refcount = row.refcount - 1;
                self.rows.insert(ri, row);
                proof {
                    assert(self.rows@ =~= pre_rows.update(ri as int, self.rows@[ri as int]));
                    assert forall|x: int| 0 <= x < self.rows@.len() implies (
                    #[trigger] self.rows@[x]).refcount == count_refs(
                        old(self).entries@,
                        self.rows@[x].key@,
                    ) + (if manifest_has(*m, self.rows@[x].key@) && !manifest_has_prefix(
                        *m,
                        j + 1,
                        self.rows@[x].key@,
                    ) {
                        1int
                    } else {
                        0int
                    }) by {
                        if x == ri as int {
                            assert(manifest_has_prefix(*m, j + 1, self.rows@[x].key@));
                        } else {
                            assert(self.rows@[x] == pre_rows[x]);
                            if manifest_has_prefix(*m, j + 1, self.rows@[x].key@)
                                && !manifest_has_prefix(*m, j as int, self.rows@[x].key@) {
                                assert(m.chunks@[j as int].key@ == self.rows@[x].key@);
                                assert(self.rows@[x].key@ == old(self).rows@[x].key@);
                                assert(old(self).rows@[ri as int].key@ == key_v);
                            }
                        }
                    }
                }
            } else {
                proof {
                    assert forall|x: int| 0 <= x < self.rows@.len() implies (
                    #[trigger] self.rows@[x]).refcount == count_refs(
                        old(self).entries@,
                        self.rows@[x].key@,
                    ) + (if manifest_has(*m, self.rows@[x].key@) && !manifest_has_prefix(
                        *m,
                        j + 1,
                        self.rows@[x].key@,
                    ) {
                        1int
                    } else {
                        0int
                    }) by {
                        if manifest_has_prefix(*m, j + 1, self.rows@[x].key@)
                            && !manifest_has_prefix(*m, j as int, self.rows@[x].key@) {
                            assert(m.chunks@[j as int].key@ == self.rows@[x].key@);
                            assert(manifest_has_prefix(*m, j as int, m.chunks@[j as int].key@));
                        }
                    }
                }
            }
            j = j + 1;
        }
        proof {
            assert forall|x: int| 0 <= x < self.rows@.len() implies (
            #[trigger] self.rows@[x]).refcount == count_refs(
                old(self).entries@,
                self.rows@[x].key@,
            ) by {
                if manifest_has(*m, self.rows@[x].key@) {
                    let w = choose|w: int|
                        0 <= w < m.chunks@.len() && m.chunks@[w].key@ == self.rows@[x].key@;
                    assert(manifest_has_prefix(
                        *m,
                        m.chunks@.len() as int,
                        self.rows@[x].key@,
                    ));
                }
            }
        }
    }

    /// Lease expiry sweep: delete every lease past its expiry.
    fn expire_leases(&mut self, now: u64) -> (n: u64)
        requires
            old(self).wf(),
        ensures
            final(self).wf(),
            final(self).leases@ == old(self).leases@.filter(active_at(now)),
            final(self).caches == old(self).caches,
            final(self).entries == old(self).entries,
            final(self).rows == old(self).rows,
            final(self).store == old(self).store,
            final(self).next_cache_id == old(self).next_cache_id,
            final(self).next_entry_id == old(self).next_entry_id,
            final(self).next_lease_id == old(self).next_lease_id,
            final(self).schema_version == old(self).schema_version,
            n == old(self).leases@.len() - final(self).leases@.len(),
            (forall|t: int|
                0 <= t < old(self).leases@.len() ==> now < (#[trigger] old(
                    self,
                ).leases@[t]).expires_at) ==> *final(self) == *old(self),
    {
        let ghost l0 = old(self).leases@;
        let ghost p = active_at(now);
        let n0 = self.leases.len();
        let mut i: usize = 0;
        let mut orig: usize = 0;
        proof {
            reveal(Seq::filter);
            assert(l0.take(0) =~= Seq::<Lease>::empty());
            assert(l0.take(0).filter(p) =~= Seq::<Lease>::empty());
            assert(self.leases@ =~= l0.take(0).filter(p) + l0.skip(0));
        }
        while i < self.leases.len()
            invariant
                old(self).wf(),
                self.wf(),
                l0 == old(self).leases@,
                p == active_at(now),
                i <= orig <= l0.len(),
                n0 == l0.len(),
                i as int == l0.take(orig as int).filter(p).len(),
                self.leases@ == l0.take(orig as int).filter(p) + l0.skip(orig as int),
                self.caches == old(self).caches,
                self.entries == old(self).entries,
                self.rows == old(self).rows,
                self.store == old(self).store,
                self.next_cache_id == old(self).next_cache_id,
                self.next_entry_id == old(self).next_entry_id,
                self.next_lease_id == old(self).next_lease_id,
                self.schema_version == old(self).schema_version,
                (forall|t: int| 0 <= t < l0.len() ==> now < (#[trigger] l0[t]).expires_at)
                    ==> *self == *old(self),
            decreases self.leases@.len() - i,
        {
            proof {
                broadcast use Seq::lemma_filter_push;
                broadcast use Seq::lemma_filter_len_push;

                assert(self.leases@[i as int] == l0.skip(orig as int)[0]);
                assert(l0.skip(orig as int)[0] == l0[orig as int]);
                assert(l0.take(orig + 1) =~= l0.take(orig as int).push(l0[orig as int]));
            }
            let ghost pre = self.leases@;
            if self.leases[i].expires_at <= now {
                self.leases.remove(i);
                proof {
                    assert(self.leases@ =~= l0.take(orig + 1).filter(p) + l0.skip(orig + 1)) by {
                        assert(pre.remove(i as int) =~= l0.take(orig as int).filter(p) + l0.skip(
                            orig as int,
                        ).drop_first());
                        assert(l0.skip(orig as int).drop_first() =~= l0.skip(orig + 1));
                    }
                    assert forall|a: int, b: int|
                        0 <= a < b < self.leases@.len() implies (#[trigger] self.leases@[a]).id != (
                    #[trigger] self.leases@[b]).id by {
                        let pa = if a < i as int {
                            a
                        } else {
                            a + 1
                        };
                        let pb = if b < i as int {
                            b
                        } else {
                            b + 1
                        };
                        assert(self.leases@[a] == pre[pa]);
                        assert(self.leases@[b] == pre[pb]);
                    }
                    assert forall|a: int|
                        0 <= a < self.leases@.len() implies (#[trigger] self.leases@[a]).id < self.next_lease_id
                        && (forall|c: int|
                        0 <= c < self.leases@[a].chunks@.len() ==> has_row(
                            self.rows@,
                            (#[trigger] self.leases@[a].chunks@[c])@,
                        )) by {
                        let pa = if a < i as int {
                            a
                        } else {
                            a + 1
                        };
                        assert(self.leases@[a] == pre[pa]);
                    }
                }
            } else {
                i = i + 1;
                proof {
                    assert(l0.skip(orig as int) =~= seq![l0[orig as int]] + l0.skip(orig + 1));
                    assert(self.leases@ =~= l0.take(orig + 1).filter(p) + l0.skip(orig + 1)) by {
                        assert(l0.take(orig as int).filter(p).push(l0[orig as int]) =~= l0.take(
                            orig as int,
                        ).filter(p) + seq![l0[orig as int]]);
                        assert((l0.take(orig as int).filter(p) + seq![l0[orig as int]]) + l0.skip(
                            orig + 1,
                        ) =~= l0.take(orig as int).filter(p) + (seq![l0[orig as int]] + l0.skip(
                            orig + 1,
                        )));
                    }
                }
            }
            orig = orig + 1;
        }
        proof {
            assert(l0.skip(orig as int).len() == 0);
            assert(orig as int == l0.len());
            assert(l0.take(l0.len() as int) =~= l0);
            assert(self.leases@ =~= l0.filter(p));
        }
        (n0 - self.leases.len()) as u64
    }

    /// Retention phase: judge every entry against its cache's policy on the
    /// snapshot, delete the entries not retained, and lower the reference
    /// counts of the chunks their manifests listed.
    #[verifier::rlimit(100)]
    fn expire_entries(&mut self, now: u64) -> (n: u64)
        requires
            old(self).wf(),
        ensures
            final(self).wf(),
            final(self).entries@ == old(self).entries@.filter(
                retained_in(old(self).entries@, old(self).caches@, now),
            ),
            final(self).caches == old(self).caches,
            final(self).leases == old(self).leases,
            final(self).store == old(self).store,
            final(self).next_cache_id == old(self).next_cache_id,
            final(self).next_entry_id == old(self).next_entry_id,
            final(self).next_lease_id == old(self).next_lease_id,
            final(self).schema_version == old(self).schema_version,
            final(self).rows@.len() == old(self).rows@.len(),
            forall|x: int|
                0 <= x < final(self).rows@.len() ==> (#[trigger] final(self).rows@[x]).key == old(
                    self,
                ).rows@[x].key && final(self).rows@[x].size_compressed == old(
                    self,
                ).rows@[x].size_compressed && final(self).rows@[x].size_uncompressed == old(
                    self,
                ).rows@[x].size_uncompressed,
            n == old(self).entries@.len() - final(self).entries@.len(),
            (forall|t: int|
                0 <= t < old(self).entries@.len() ==> retained(
                    old(self).entries@,
                    old(self).caches@,
                    now,
                    #[trigger] old(self).entries@[t],
                )) ==> *final(self) == *old(self),
    {
        let ghost e0 = old(self).entries@;
        let ghost c0 = old(self).caches@;
        let ghost p = retained_in(e0, c0, now);
        let mut flags: Vec<bool> = Vec::new();
        let mut i: usize = 0;
        while i < self.entries.len()
            invariant
                old(self).wf(),
                *self == *old(self),
                e0 == old(self).entries@,
                c0 == old(self).caches@,
                p == retained_in(e0, c0, now),
                i <= e0.len(),
                flags@.len() == i,
                forall|t: int| 0 <= t < i ==> flags@[t] == p(#[trigger] e0[t]),
            decreases self.entries@.len() - i,
        {
            let pol = find_policy(&self.caches, self.entries[i].cache_id);
            let keep: bool;
            match pol {
                RetentionPolicy::Unlimited => {
                    keep = true;
                },
                RetentionPolicy::KeepWithin { duration } => {
                    keep = now <= duration || self.entries[i].last_accessed >= now - duration;
                },
                RetentionPolicy::KeepLast { count } => {
                    let c = count_newer_exec(&self.entries, &self.entries[i]);
                    keep = (c as u64) < count;
                },
            }
            proof {
                assert(keep == retained(e0, c0, now, e0[i as int]));
            }
            flags.push(keep);
            i = i + 1;
        }
        let n0 = self.entries.len();
        let mut i: usize = 0;
        let mut orig: usize = 0;
        proof {
            reveal(Seq::filter);
            assert(e0.take(0) =~= Seq::<Entry>::empty());
            assert(e0.take(0).filter(p) =~= Seq::<Entry>::empty());
            assert(self.entries@ =~= e0.take(0).filter(p) + e0.skip(0));
        }
        while i < self.entries.len()
            invariant
                old(self).wf(),
                self.wf(),
                e0 == old(self).entries@,
                c0 == old(self).caches@,
                p == retained_in(e0, c0, now),
                i <= orig <= e0.len(),
                n0 == e0.len(),
                flags@.len() == e0.len(),
                forall|t: int| 0 <= t < e0.len() ==> flags@[t] == p(#[trigger] e0[t]),
                i as int == e0.take(orig as int).filter(p).len(),
                self.entries@ == e0.take(orig as int).filter(p) + e0.skip(orig as int),
                self.caches == old(self).caches,
                self.leases == old(self).leases,
                self.store == old(self).store,
                self.next_cache_id == old(self).next_cache_id,
                self.next_entry_id == old(self).next_entry_id,
                self.next_lease_id == old(self).next_lease_id,
                self.schema_version == old(self).schema_version,
                self.rows@.len() == old(self).rows@.len(),
                forall|x: int|
                    0 <= x < self.rows@.len() ==> (#[trigger] self.rows@[x]).key == old(
                        self,
                    ).rows@[x].key && self.rows@[x].size_compressed == old(
                        self,
                    ).rows@[x].size_compressed && self.rows@[x].size_uncompressed == old(
                        self,
                    ).rows@[x].size_uncompressed,
                (forall|t: int| 0 <= t < e0.len() ==> p(#[trigger] e0[t])) ==> *self == *old(
                    self,
                ),
            decreases self.entries@.len() - i,
        {
            proof {
                broadcast use Seq::lemma_filter_push;
                broadcast use Seq::lemma_filter_len_push;

                assert(self.entries@[i as int] == e0.skip(orig as int)[0]);
                assert(e0.skip(orig as int)[0] == e0[orig as int]);
                assert(e0.take(orig + 1) =~= e0.take(orig as int).push(e0[orig as int]));
            }
            let ghost pre = self.entries@;
            if flags[orig] {
                i = i + 1;
                proof {
                    assert(e0.skip(orig as int) =~= seq![e0[orig as int]] + e0.skip(orig + 1));
                    assert(self.entries@ =~= e0.take(orig + 1).filter(p) + e0.skip(orig + 1)) by {
                        assert(e0.take(orig as int).filter(p).push(e0[orig as int]) =~= e0.take(
                            orig as int,
                        ).filter(p) + seq![e0[orig as int]]);
                        assert((e0.take(orig as int).filter(p) + seq![e0[orig as int]]) + e0.skip(
                            orig + 1,
                        ) =~= e0.take(orig as int).filter(p) + (seq![e0[orig as int]] + e0.skip(
                            orig + 1,
                        )));
                    }
                }
            } else {
                let ghost rows_pre = self.rows@;
                let e = self.entries.remove(i);
                proof {
                    assert(e == e0[orig as int]);
                    assert(self.entries@ =~= e0.take(orig + 1).filter(p) + e0.skip(orig + 1)) by {
                        assert(pre.remove(i as int) =~= e0.take(orig as int).filter(p) + e0.skip(
                            orig as int,
                        ).drop_first());
                        assert(e0.skip(orig as int).drop_first() =~= e0.skip(orig + 1));
                    }
                    assert forall|a: int, b: int|
                        0 <= a < b < self.entries@.len() implies (#[trigger] self.entries@[a]).id
                        != (#[trigger] self.entries@[b]).id by {
                        let pa = if a < i as int {
                            a
                        } else {
                            a + 1
                        };
                        let pb = if b < i as int {
                            b
                        } else {
                            b + 1
                        };
                        assert(self.entries@[a] == pre[pa]);
                        assert(self.entries@[b] == pre[pb]);
                    }
                    assert forall|x: int| 0 <= x < self.rows@.len() implies (
                    #[trigger] self.rows@[x]).refcount == count_refs(
                        self.entries@,
                        self.rows@[x].key@,
                    ) + (if manifest_has(e.manifest, self.rows@[x].key@) {
                        1int
                    } else {
                        0int
                    }) by {
                        let k = self.rows@[x].key@;
                        crate::model::lemma_filter_remove(
                            pre,
                            |e2: Entry| manifest_has(e2.manifest, k),
                            i as int,
                        );
                    }
                    assert forall|j: int| 0 <= j < e.manifest.chunks@.len() implies has_row(
                        self.rows@,
                        (#[trigger] e.manifest.chunks@[j]).key@,
                    ) by {
                        let k = e.manifest.chunks@[j].key@;
                        assert(has_row(old(self).rows@, k));
                        let u = choose|u: int|
                            0 <= u < old(self).rows@.len() && old(self).rows@[u].key@ == k;
                        assert(self.rows@[u].key@ == k);
                    }
                }
                self.lower_refcounts(&e.manifest);
                proof {
                    assert(!p(e0[orig as int]));
                    assert forall|a: int|
                        0 <= a < self.entries@.len() implies crate::model::manifest_wf(
                        (#[trigger] self.entries@[a]).manifest,
                    ) && crate::model::has_cache(self.caches@, self.entries@[a].cache_id)
                        && self.entries@[a].id < self.next_entry_id by {
                        let pa = if a < i as int {
                            a
                        } else {
                            a + 1
                        };
                        assert(self.entries@[a] == pre[pa]);
                    }
                    assert forall|a: int, c: int|
                        0 <= a < self.entries@.len() && 0 <= c
                            < self.entries@[a].manifest.chunks@.len() implies has_row(
                        self.rows@,
                        (#[trigger] self.entries@[a].manifest.chunks@[c]).key@,
                    ) by {
                        let pa = if a < i as int {
                            a
                        } else {
                            a + 1
                        };
                        assert(self.entries@[a] == pre[pa]);
                        let k = self.entries@[a].manifest.chunks@[c].key@;
                        assert(has_row(rows_pre, k));
                        let u = choose|u: int|
                            0 <= u < rows_pre.len() && rows_pre[u].key@ == k;
                        assert(rows_pre[u].key == old(self).rows@[u].key);
                        assert(self.rows@[u].key == old(self).rows@[u].key);
                        assert(self.rows@[u].key@ == k);
                    }
                    assert forall|a: int, c: int|
                        0 <= a < self.leases@.len() && 0 <= c
                            < self.leases@[a].chunks@.len() implies has_row(
                        self.rows@,
                        (#[trigger] self.leases@[a].chunks@[c])@,
                    ) by {
                        let k = self.leases@[a].chunks@[c]@;
                        assert(has_row(rows_pre, k));
                        let u = choose|u: int|
                            0 <= u < rows_pre.len() && rows_pre[u].key@ == k;
                        assert(rows_pre[u].key == old(self).rows@[u].key);
                        assert(self.rows@[u].key == old(self).rows@[u].key);
                        assert(self.rows@[u].key@ == k);
                    }
                    assert forall|a: int, b: int|
                        0 <= a < b < self.rows@.len() implies self.rows@[a].key@
                        != self.rows@[b].key@ by {
                        assert(self.rows@[a].key == old(self).rows@[a].key);
                        assert(self.rows@[b].key == old(self).rows@[b].key);
                    }
                    assert forall|a: int| 0 <= a < self.rows@.len() implies has_blob(
                        self.store.blobs@,
                        (#[trigger] self.rows@[a]).key@,
                    ) && (#[trigger] self.rows@[a]).size_uncompressed
                        == self.rows@[a].key@.len() by {
                        assert(self.rows@[a].key == old(self).rows@[a].key);
                        assert(has_blob(old(self).store.blobs@, old(self).rows@[a].key@));
                    }
                    assert forall|a: int| 0 <= a < self.store.blobs@.len() implies has_row(
                        self.rows@,
                        (#[trigger] self.store.blobs@[a]).key@,
                    ) by {
                        let k = self.store.blobs@[a].key@;
                        assert(has_row(old(self).rows@, k));
                        let u = choose|u: int|
                            0 <= u < old(self).rows@.len() && old(self).rows@[u].key@ == k;
                        assert(self.rows@[u].key == old(self).rows@[u].key);
                        assert(self.rows@[u].key@ == k);
                    }
                }
            }
            orig = orig + 1;
        }
        proof {
            assert(e0.skip(orig as int).len() == 0);
            assert(orig as int == e0.len());
            assert(e0.take(e0.len() as int) =~= e0);
            assert(self.entries@ =~= e0.filter(p));
        }
        (n0 - self.entries.len()) as u64
    }

    /// Reclamation phase: delete every chunk row whose reference count is
    /// zero and that no unexpired lease names, together with its blob. The
    /// count is re-checked against the live metadata immediately before each
    /// delete, never against a stale selection.
    #[verifier::rlimit(100)]
    fn reclaim_chunks(&mut self, now: u64) -> (n: (u64, u64))
        requires
            old(self).wf(),
            forall|t: int|
                0 <= t < old(self).leases@.len() ==> now < (#[trigger] old(
                    self,
                ).leases@[t]).expires_at,
        ensures
            final(self).wf(),
            final(self).rows@ == old(self).rows@.filter(alive_in(old(self).leases@, now)),
            final(self).caches == old(self).caches,
            final(self).entries == old(self).entries,
            final(self).leases == old(self).leases,
            final(self).next_cache_id == old(self).next_cache_id,
            final(self).next_entry_id == old(self).next_entry_id,
            final(self).next_lease_id == old(self).next_lease_id,
            final(self).schema_version == old(self).schema_version,
            forall|k: Seq<u8>|
                #[trigger] has_blob(final(self).store.blobs@, k) ==> has_blob(
                    old(self).store.blobs@,
                    k,
                ) && blob_value(final(self).store.blobs@, k) == blob_value(
                    old(self).store.blobs@,
                    k,
                ),
            n.0 == old(self).rows@.len() - final(self).rows@.len(),
            n.0 == 0 ==> n.1 == 0,
            (forall|t: int|
                0 <= t < old(self).rows@.len() ==> row_alive(
                    #[trigger] old(self).rows@[t],
                    old(self).leases@,
                    now,
                )) ==> *final(self) == *old(self),
    {
        let ghost r0 = old(self).rows@;
        let ghost p = alive_in(old(self).leases@, now);
        let n0 = self.rows.len();
        let mut bytes: u64 = 0;
        let mut i: usize = 0;
        let mut orig: usize = 0;
        proof {
            reveal(Seq::filter);
            assert(r0.take(0) =~= Seq::<ChunkRow>::empty());
            assert(r0.take(0).filter(p) =~= Seq::<ChunkRow>::empty());
            assert(self.rows@ =~= r0.take(0).filter(p) + r0.skip(0));
        }
        while i < self.rows.len()
            invariant
                old(self).wf(),
                self.wf(),
                forall|t: int|
                    0 <= t < old(self).leases@.len() ==> now < (#[trigger] old(
                        self,
                    ).leases@[t]).expires_at,
                r0 == old(self).rows@,
                p == alive_in(old(self).leases@, now),
                i <= orig <= r0.len(),
                n0 == r0.len(),
                i as int == r0.take(orig as int).filter(p).len(),
                self.rows@ == r0.take(orig as int).filter(p) + r0.skip(orig as int),
                self.caches == old(self).caches,
                self.entries == old(self).entries,
                self.leases == old(self).leases,
                self.next_cache_id == old(self).next_cache_id,
                self.next_entry_id == old(self).next_entry_id,
                self.next_lease_id == old(self).next_lease_id,
                self.schema_version == old(self).schema_version,
                forall|k: Seq<u8>|
                    #[trigger] has_blob(self.store.blobs@, k) ==> has_blob(
                        old(self).store.blobs@,
                        k,
                    ) && blob_value(self.store.blobs@, k) == blob_value(
                        old(self).store.blobs@,
                        k,
                    ),
                i == orig ==> bytes == 0,
                (forall|t: int|
                    0 <= t < r0.len() ==> row_alive(#[trigger] r0[t], old(self).leases@, now))
                    ==> *self == *old(self),
            decreases self.rows@.len() - i,
        {
            proof {
                broadcast use Seq::lemma_filter_push;
                broadcast use Seq::lemma_filter_len_push;

                assert(self.rows@[i as int] == r0.skip(orig as int)[0]);
                assert(r0.skip(orig as int)[0] == r0[orig as int]);
                assert(r0.take(orig + 1) =~= r0.take(orig as int).push(r0[orig as int]));
            }
            let ghost pre = self.rows@;
            let alive = self.rows[i].refcount > 0 || covered_exec(&self.leases, now, &self.rows[i].key);
            proof {
                assert(alive == row_alive(r0[orig as int], old(self).leases@, now));
            }
            if alive {
                i = i + 1;
                proof {
                    assert(r0.skip(orig as int) =~= seq![r0[orig as int]] + r0.skip(orig + 1));
                    assert(self.rows@ =~= r0.take(orig + 1).filter(p) + r0.skip(orig + 1)) by {
                        assert(r0.take(orig as int).filter(p).push(r0[orig as int]) =~= r0.take(
                            orig as int,
                        ).filter(p) + seq![r0[orig as int]]);
                        assert((r0.take(orig as int).filter(p) + seq![r0[orig as int]]) + r0.skip(
                            orig + 1,
                        ) =~= r0.take(orig as int).filter(p) + (seq![r0[orig as int]] + r0.skip(
                            orig + 1,
                        )));
                    }
                }
            } else {
                let row = self.rows.remove(i);
                let ghost blobs_pre = self.store.blobs@;
                proof {
                    assert(has_blob(blobs_pre, row.key@));
                }
                let deleted = self.store.delete(&row.key);
                proof {
                    assert(deleted);
                    assert(self.rows@ =~= r0.take(orig + 1).filter(p) + r0.skip(orig + 1)) by {
                        assert(pre.remove(i as int) =~= r0.take(orig as int).filter(p) + r0.skip(
                            orig as int,
                        ).drop_first());
                        assert(r0.skip(orig as int).drop_first() =~= r0.skip(orig + 1));
                    }
                    assert forall|k: Seq<u8>| #[trigger] has_blob(self.store.blobs@, k) implies
                        has_blob(old(self).store.blobs@, k) && blob_value(self.store.blobs@, k)
                        == blob_value(old(self).store.blobs@, k) by {
                        assert(k != row.key@);
                        assert(has_blob(blobs_pre, k));
                    }
                    assert forall|a: int, b: int|
                        0 <= a < b < self.rows@.len() implies self.rows@[a].key@
                        != self.rows@[b].key@ by {
                        let pa = if a < i as int {
                            a
                        } else {
                            a + 1
                        };
                        let pb = if b < i as int {
                            b
                        } else {
                            b + 1
                        };
                        assert(self.rows@[a] == pre[pa]);
                        assert(self.rows@[b] == pre[pb]);
                    }
                    assert forall|a: int| 0 <= a < self.rows@.len() implies (
                    #[trigger] self.rows@[a]).refcount == count_refs(
                        self.entries@,
                        self.rows@[a].key@,
                    ) && self.rows@[a].size_uncompressed == self.rows@[a].key@.len() && has_blob(
                        self.store.blobs@,
                        self.rows@[a].key@,
                    ) by {
                        let pa = if a < i as int {
                            a
                        } else {
                            a + 1
                        };
                        assert(self.rows@[a] == pre[pa]);
                        assert(self.rows@[a].key@ != row.key@) by {
                            if pa < i as int {
                                assert(pre[pa].key@ != pre[i as int].key@);
                            } else {
                                assert(pre[i as int].key@ != pre[pa].key@);
                            }
                        }
                        assert(has_blob(blobs_pre, pre[pa].key@));
                    }
                    assert forall|a: int, c: int|
                        0 <= a < self.entries@.len() && 0 <= c
                            < self.entries@[a].manifest.chunks@.len() implies has_row(
                        self.rows@,
                        (#[trigger] self.entries@[a].manifest.chunks@[c]).key@,
                    ) by {
                        let k = self.entries@[a].manifest.chunks@[c].key@;
                        assert(has_row(pre, k));
                        let u = choose|u: int| 0 <= u < pre.len() && pre[u].key@ == k;
                        assert(count_refs(self.entries@, k) > 0) by {
                            broadcast use vstd::seq_lib::group_filter_ensures;

                            assert(crate::model::manifest_has(
                                self.entries@[a].manifest,
                                k,
                            ));
                            self.entries@.lemma_filter_contains(
                                |e2: Entry| crate::model::manifest_has(e2.manifest, k),
                                a,
                            );
                        }
                        assert(u != i as int) by {
                            assert(pre[i as int].refcount == count_refs(
                                self.entries@,
                                pre[i as int].key@,
                            ));
                        }
                        if u < i as int {
                            assert(self.rows@[u].key@ == k);
                        } else {
                            assert(self.rows@[u - 1].key@ == k);
                        }
                    }
                    assert forall|a: int, c: int|
                        0 <= a < self.leases@.len() && 0 <= c
                            < self.leases@[a].chunks@.len() implies has_row(
                        self.rows@,
                        (#[trigger] self.leases@[a].chunks@[c])@,
                    ) by {
                        let k = self.leases@[a].chunks@[c]@;
                        assert(has_row(pre, k));
                        let u = choose|u: int| 0 <= u < pre.len() && pre[u].key@ == k;
                        assert(covered(self.leases@, now, k)) by {
                            assert(lease_has(self.leases@[a], k));
                        }
                        assert(covered(old(self).leases@, now, k));
                        assert(u != i as int) by {
                            assert(!row_alive(pre[i as int], old(self).leases@, now));
                        }
                        if u < i as int {
                            assert(self.rows@[u].key@ == k);
                        } else {
                            assert(self.rows@[u - 1].key@ == k);
                        }
                    }
                    assert forall|a: int| 0 <= a < self.store.blobs@.len() implies has_row(
                        self.rows@,
                        (#[trigger] self.store.blobs@[a]).key@,
                    ) by {
                        let k = self.store.blobs@[a].key@;
                        crate::store::lemma_blob_value_at(self.store.blobs@, a);
                        assert(has_blob(self.store.blobs@, k));
                        assert(k != row.key@);
                        assert(has_blob(blobs_pre, k));
                        assert(has_row(pre, k));
                        let u = choose|u: int| 0 <= u < pre.len() && pre[u].key@ == k;
                        assert(u != i as int);
                        if u < i as int {
                            assert(self.rows@[u].key@ == k);
                        } else {
                            assert(self.rows@[u - 1].key@ == k);
                        }
                    }
                    assert forall|x: int| 0 <= x < self.store.blobs@.len() implies
                        crate::codec::rle_decode((#[trigger] self.store.blobs@[x]).data@) == Some(
                        self.store.blobs@[x].key@,
                    ) by {
                        let k = self.store.blobs@[x].key@;
                        crate::store::lemma_blob_value_at(self.store.blobs@, x);
                        assert(has_blob(self.store.blobs@, k));
                        assert(has_blob(old(self).store.blobs@, k));
                        let u = choose|u: int|
                            0 <= u < old(self).store.blobs@.len() && old(
                                self,
                            ).store.blobs@[u].key@ == k;
                        crate::store::lemma_blob_value_at(old(self).store.blobs@, u);
                        assert(self.store.blobs@[x].data@ == old(self).store.blobs@[u].data@);
                    }
                    if forall|t: int|
                        0 <= t < r0.len() ==> row_alive(#[trigger] r0[t], old(self).leases@, now) {
                        assert(row_alive(r0[orig as int], old(self).leases@, now));
                        assert(false);
                    }
                }
                bytes = if bytes <= u64::MAX - row.size_compressed {
                    bytes + row.size_compressed
                } else {
                    u64::MAX
                };
            }
            orig = orig + 1;
        }
        proof {
            assert(r0.skip(orig as int).len() == 0);
            assert(orig as int == r0.len());
            assert(r0.take(r0.len() as int) =~= r0);
            assert(self.rows@ =~= r0.filter(p));
        }
        ((n0 - self.rows.len()) as u64, bytes)
    }

    /// One full garbage-collection sweep at time `now`.
    ///
    /// Phases: expired leases are removed; entries not retained by their
    /// cache's policy (judged against the snapshot) are deleted and the
    /// reference counts of their chunks lowered; chunks left at count zero
    /// with no unexpired lease naming them are reclaimed, row and blob.
    ///
    /// Lease protection: a chunk named by a lease unexpired at `now` is never
    /// deleted, even at reference count zero. Idempotence: the sweep leaves a
    /// quiescent state, and sweeping a quiescent state deletes nothing and
    /// changes nothing.
    pub fn sweep(&mut self, now: u64) -> (stats: SweepStats)
        requires
            old(self).wf(),
        ensures
            final(self).wf(),
            final(self).caches == old(self).caches,
            final(self).next_cache_id == old(self).next_cache_id,
            final(self).next_entry_id == old(self).next_entry_id,
            final(self).next_lease_id == old(self).next_lease_id,
            final(self).schema_version == old(self).schema_version,
            final(self).leases@ == old(self).leases@.filter(active_at(now)),
            final(self).entries@ == old(self).entries@.filter(
                retained_in(old(self).entries@, old(self).caches@, now),
            ),
            forall|k: Seq<u8>|
                #[trigger] has_row(final(self).rows@, k) <==> (has_row(old(self).rows@, k) && (
                count_refs(final(self).entries@, k) > 0 || covered(final(self).leases@, now, k))),
            forall|k: Seq<u8>|
                #[trigger] has_blob(final(self).store.blobs@, k) ==> has_blob(
                    old(self).store.blobs@,
                    k,
                ) && blob_value(final(self).store.blobs@, k) == blob_value(
                    old(self).store.blobs@,
                    k,
                ),
            forall|i: int, j: int|
                0 <= i < old(self).leases@.len() && now < old(self).leases@[i].expires_at && 0 <= j
                    < old(self).leases@[i].chunks@.len() ==> has_row(
                    final(self).rows@,
                    (#[trigger] old(self).leases@[i].chunks@[j])@,
                ) && has_blob(
                    final(self).store.blobs@,
                    (#[trigger] old(self).leases@[i].chunks@[j])@,
                ),
            stats.leases_expired == old(self).leases@.len() - final(self).leases@.len(),
            stats.entries_deleted == old(self).entries@.len() - final(self).entries@.len(),
            stats.chunks_deleted == old(self).rows@.len() - final(self).rows@.len(),
            quiescent(*final(self), now),
            quiescent(*old(self), now) ==> *final(self) == *old(self)
                && stats.leases_expired == 0 && stats.entries_deleted == 0 && stats.chunks_deleted
                == 0 && stats.bytes_reclaimed == 0,
    {
        broadcast use vstd::seq_lib::group_filter_ensures;

        let ghost s0 = *self;
        let leases_expired = self.expire_leases(now);
        let ghost s1 = *self;
        let entries_deleted = self.expire_entries(now);
        let ghost s2 = *self;
        let (chunks_deleted, bytes_reclaimed) = self.reclaim_chunks(now);
        proof {
            // the leases that survive the expiry phase are exactly the
            // unexpired ones, so the reclamation predicate matches
            assert(s1.leases@ == s0.leases@.filter(active_at(now)));
            assert(self.leases@ == s1.leases@);
            assert(self.entries@ == s1.entries@.filter(
                retained_in(s1.entries@, s1.caches@, now),
            ));
            assert(s1.entries@ == s0.entries@ && s1.caches@ == s0.caches@);
            assert(self.rows@ == s2.rows@.filter(alive_in(s2.leases@, now)));
            // a row survives exactly when it is still referenced or an
            // unexpired lease names it
            let q = alive_in(s1.leases@, now);
            assert forall|k: Seq<u8>| #[trigger] has_row(self.rows@, k) <==> (has_row(
                s0.rows@,
                k,
            ) && (count_refs(self.entries@, k) > 0 || covered(self.leases@, now, k))) by {
                if has_row(self.rows@, k) {
                    let v = choose|v: int| 0 <= v < self.rows@.len() && self.rows@[v].key@ == k;
                    crate::model::lemma_filter_elem(s2.rows@, q, v);
                    let u = choose|u: int|
                        0 <= u < s2.rows@.len() && s2.rows@[u] == self.rows@[v];
                    assert(q(self.rows@[v]));
                    assert(s2.rows@[u].key == s0.rows@[u].key);
                    assert(has_row(s0.rows@, k));
                    assert(s2.rows@[u].refcount == count_refs(s2.entries@, k));
                }
                if has_row(s0.rows@, k) && (count_refs(self.entries@, k) > 0 || covered(
                    self.leases@,
                    now,
                    k,
                )) {
                    let u = choose|u: int| 0 <= u < s0.rows@.len() && s0.rows@[u].key@ == k;
                    assert(s2.rows@[u].key == s0.rows@[u].key);
                    assert(s2.rows@[u].refcount == count_refs(s2.entries@, k));
                    assert(q(s2.rows@[u]));
                    s2.rows@.lemma_filter_contains(q, u);
                    let v = choose|v: int|
                        0 <= v < self.rows@.len() && self.rows@[v] == s2.rows@[u];
                    assert(self.rows@[v].key@ == k);
                }
            }
            // lease protection
            assert forall|i: int, j: int|
                0 <= i < s0.leases@.len() && now < s0.leases@[i].expires_at && 0 <= j
                    < s0.leases@[i].chunks@.len() implies has_row(
                self.rows@,
                (#[trigger] s0.leases@[i].chunks@[j])@,
            ) && has_blob(self.store.blobs@, (#[trigger] s0.leases@[i].chunks@[j])@) by {
                let k = s0.leases@[i].chunks@[j]@;
                let pa = active_at(now);
                s0.leases@.lemma_filter_contains(pa, i);
                let li = choose|li: int|
                    0 <= li < s1.leases@.len() && s1.leases@[li] == s0.leases@[i];
                assert(covered(s1.leases@, now, k)) by {
                    assert(lease_has(s1.leases@[li], k));
                }
                assert(has_row(s0.rows@, k));
                let u = choose|u: int| 0 <= u < s0.rows@.len() && s0.rows@[u].key@ == k;
                assert(s2.rows@[u].key == s0.rows@[u].key);
                assert(row_alive(s2.rows@[u], s1.leases@, now));
                s2.rows@.lemma_filter_contains(alive_in(s1.leases@, now), u);
                let v = choose|v: int| 0 <= v < self.rows@.len() && self.rows@[v] == s2.rows@[u];
                assert(self.rows@[v].key@ == k);
                assert(has_row(self.rows@, k));
            }
            // nothing is left for a second sweep
            assert(quiescent(*self, now)) by {
                assert forall|i: int|
                    0 <= i < self.entries@.len() implies retained(
                    self.entries@,
                    self.caches@,
                    now,
                    #[trigger] self.entries@[i],
                ) by {
                    let p = retained_in(s0.entries@, s0.caches@, now);
                    assert(p(self.entries@[i]));
                    assert(retained(s0.entries@, s0.caches@, now, self.entries@[i]));
                    match policy_of(s0.caches@, self.entries@[i].cache_id) {
                        RetentionPolicy::Unlimited => {},
                        RetentionPolicy::KeepWithin { duration } => {},
                        RetentionPolicy::KeepLast { count } => {
                            lemma_count_newer_filter(s0.entries@, p, self.entries@[i]);
                        },
                    }
                }
                assert forall|i: int| 0 <= i < self.rows@.len() implies row_alive(
                    #[trigger] self.rows@[i],
                    self.leases@,
                    now,
                ) by {
                    let q = alive_in(s1.leases@, now);
                    assert(q(self.rows@[i]));
                }
            }
            // a quiescent state is left unchanged
            if quiescent(s0, now) {
                assert(s1 == s0) by {
                    assert(forall|t: int|
                        0 <= t < s0.leases@.len() ==> now < (#[trigger] s0.leases@[t]).expires_at);
                }
                assert(s2 == s1);
                assert(forall|t: int|
                    0 <= t < s2.rows@.len() ==> row_alive(
                        #[trigger] s2.rows@[t],
                        s2.leases@,
                        now,
                    ));
                assert(*final(self) == s2);
            }
        }
        SweepStats { entries_deleted, chunks_deleted, leases_expired, bytes_reclaimed }
    }

    /// Delete a cache: the cache row and every entry in it go, and the
    /// reference counts of the chunks their manifests listed are lowered.
    /// The chunk data itself is not touched here; chunks left unreferenced
    /// are reclaimed by the next sweep's zero-reference path.
    #[verifier::rlimit(100)]
    pub fn delete_cache(&mut self, cache_id: u64) -> (r: Result<(), CacheError>)
        requires
            old(self).wf(),
        ensures
            final(self).wf(),
            (r is Ok) == has_cache(old(self).caches@, cache_id),
            !has_cache(final(self).caches@, cache_id),
            r is Err ==> r == Err::<(), CacheError>(CacheError::CacheNotFound) && *final(self)
                == *old(self),
            r is Ok ==> exists|i: int|
                0 <= i < old(self).caches@.len() && (#[trigger] old(self).caches@[i]).id == cache_id
                    && final(self).caches@ == old(self).caches@.remove(i),
            r is Ok ==> final(self).entries@ == old(self).entries@.filter(
                outside_cache(cache_id),
            ),
            final(self).leases == old(self).leases,
            final(self).store == old(self).store,
            final(self).next_cache_id == old(self).next_cache_id,
            final(self).next_entry_id == old(self).next_entry_id,
            final(self).next_lease_id == old(self).next_lease_id,
            final(self).schema_version == old(self).schema_version,
            final(self).rows@.len() == old(self).rows@.len(),
            forall|x: int|
                0 <= x < final(self).rows@.len() ==> (#[trigger] final(self).rows@[x]).key == old(self).rows@[x].key
                    && final(self).rows@[x].size_compressed == old(self).rows@[x].size_compressed
                    && final(self).rows@[x].size_uncompressed == old(self).rows@[x].size_uncompressed,
    {
        let ci = match crate::server::find_cache_index(&self.caches, cache_id) {
            None => {
                return Err(CacheError::CacheNotFound);
            },
            Some(i) => i,
        };
        let ghost e0 = old(self).entries@;
        let ghost p = outside_cache(cache_id);
        let n0 = self.entries.len();
        let mut i: usize = 0;
        let mut orig: usize = 0;
        proof {
            reveal(Seq::filter);
            assert(e0.take(0) =~= Seq::<Entry>::empty());
            assert(e0.take(0).filter(p) =~= Seq::<Entry>::empty());
            assert(self.entries@ =~= e0.take(0).filter(p) + e0.skip(0));
        }
        while i < self.entries.len()
            invariant
                old(self).wf(),
                self.wf(),
                e0 == old(self).entries@,
                p == outside_cache(cache_id),
                n0 == e0.len(),
                i <= orig <= e0.len(),
                i as int == e0.take(orig as int).filter(p).len(),
                self.entries@ == e0.take(orig as int).filter(p) + e0.skip(orig as int),
                self.caches == old(self).caches,
                self.leases == old(self).leases,
                self.store == old(self).store,
                self.next_cache_id == old(self).next_cache_id,
                self.next_entry_id == old(self).next_entry_id,
                self.next_lease_id == old(self).next_lease_id,
                self.schema_version == old(self).schema_version,
                self.rows@.len() == old(self).rows@.len(),
                forall|x: int|
                    0 <= x < self.rows@.len() ==> (#[trigger] self.rows@[x]).key == old(self).rows@[x].key
                        && self.rows@[x].size_compressed == old(self).rows@[x].size_compressed
                        && self.rows@[x].size_uncompressed == old(self).rows@[x].size_uncompressed,
            decreases self.entries@.len() - i,
        {
            proof {
                broadcast use Seq::lemma_filter_push;
                broadcast use Seq::lemma_filter_len_push;

                assert(self.entries@[i as int] == e0.skip(orig as int)[0]);
                assert(e0.skip(orig as int)[0] == e0[orig as int]);
                assert(e0.take(orig + 1) =~= e0.take(orig as int).push(e0[orig as int]));
            }
            let ghost pre = self.entries@;
            if self.entries[i].cache_id != cache_id {
                i = i + 1;
                proof {
                    assert(e0.skip(orig as int) =~= seq![e0[orig as int]] + e0.skip(orig + 1));
                    assert(self.entries@ =~= e0.take(orig + 1).filter(p) + e0.skip(orig + 1)) by {
                        assert(e0.take(orig as int).filter(p).push(e0[orig as int]) =~= e0.take(
                            orig as int,
                        ).filter(p) + seq![e0[orig as int]]);
                        assert((e0.take(orig as int).filter(p) + seq![e0[orig as int]]) + e0.skip(
                            orig + 1,
                        ) =~= e0.take(orig as int).filter(p) + (seq![e0[orig as int]] + e0.skip(
                            orig + 1,
                        )));
                    }
                }
            } else {
                let ghost rows_pre = self.rows@;
                let e = self.entries.remove(i);
                proof {
                    assert(e == e0[orig as int]);
                    assert(self.entries@ =~= e0.take(orig + 1).filter(p) + e0.skip(orig + 1)) by {
                        assert(pre.remove(i as int) =~= e0.take(orig as int).filter(p) + e0.skip(
                            orig as int,
                        ).drop_first());
                        assert(e0.skip(orig as int).drop_first() =~= e0.skip(orig + 1));
                    }
                    assert forall|a: int, b: int|
                        0 <= a < b < self.entries@.len() implies (#[trigger] self.entries@[a]).id
                        != (#[trigger] self.entries@[b]).id by {
                        let pa = if a < i as int {
                            a
                        } else {
                            a + 1
                        };
                        let pb = if b < i as int {
                            b
                        } else {
                            b + 1
                        };
                        assert(self.entries@[a] == pre[pa]);
                        assert(self.entries@[b] == pre[pb]);
                    }
                    assert forall|x: int| 0 <= x < self.rows@.len() implies (
                    #[trigger] self.rows@[x]).refcount == count_refs(
                        self.entries@,
                        self.rows@[x].key@,
                    ) + (if manifest_has(e.manifest, self.rows@[x].key@) {
                        1int
                    } else {
                        0int
                    }) by {
                        let k = self.rows@[x].key@;
                        crate::model::lemma_filter_remove(
                            pre,
                            |e2: Entry| manifest_has(e2.manifest, k),
                            i as int,
                        );
                    }
                    assert forall|j: int| 0 <= j < e.manifest.chunks@.len() implies has_row(
                        self.rows@,
                        (#[trigger] e.manifest.chunks@[j]).key@,
                    ) by {
                        let k = e.manifest.chunks@[j].key@;
                        assert(has_row(old(self).rows@, k));
                        let u = choose|u: int|
                            0 <= u < old(self).rows@.len() && old(self).rows@[u].key@ == k;
                        assert(self.rows@[u].key@ == k);
                    }
                }
                self.lower_refcounts(&e.manifest);
                proof {
                    assert forall|a: int|
                        0 <= a < self.entries@.len() implies crate::model::manifest_wf(
                        (#[trigger] self.entries@[a]).manifest,
                    ) && crate::model::has_cache(self.caches@, self.entries@[a].cache_id)
                        && self.entries@[a].id < self.next_entry_id by {
                        let pa = if a < i as int {
                            a
                        } else {
                            a + 1
                        };
                        assert(self.entries@[a] == pre[pa]);
                    }
                    assert forall|a: int, c: int|
                        0 <= a < self.entries@.len() && 0 <= c
                            < self.entries@[a].manifest.chunks@.len() implies has_row(
                        self.rows@,
                        (#[trigger] self.entries@[a].manifest.chunks@[c]).key@,
                    ) by {
                        let pa = if a < i as int {
                            a
                        } else {
                            a + 1
                        };
                        assert(self.entries@[a] == pre[pa]);
                        let k = self.entries@[a].manifest.chunks@[c].key@;
                        assert(has_row(rows_pre, k));
                        let u = choose|u: int|
                            0 <= u < rows_pre.len() && rows_pre[u].key@ == k;
                        assert(rows_pre[u].key == old(self).rows@[u].key);
                        assert(self.rows@[u].key == old(self).rows@[u].key);
                        assert(self.rows@[u].key@ == k);
                    }
                    assert forall|a: int, c: int|
                        0 <= a < self.leases@.len() && 0 <= c
                            < self.leases@[a].chunks@.len() implies has_row(
                        self.rows@,
                        (#[trigger] self.leases@[a].chunks@[c])@,
                    ) by {
                        let k = self.leases@[a].chunks@[c]@;
                        assert(has_row(rows_pre, k));
                        let u = choose|u: int|
                            0 <= u < rows_pre.len() && rows_pre[u].key@ == k;
                        assert(rows_pre[u].key == old(self).rows@[u].key);
                        assert(self.rows@[u].key == old(self).rows@[u].key);
                        assert(self.rows@[u].key@ == k);
                    }
                    assert forall|a: int, b: int|
                        0 <= a < b < self.rows@.len() implies self.rows@[a].key@
                        != self.rows@[b].key@ by {
                        assert(self.rows@[a].key == old(self).rows@[a].key);
                        assert(self.rows@[b].key == old(self).rows@[b].key);
                    }
                    assert forall|a: int| 0 <= a < self.rows@.len() implies has_blob(
                        self.store.blobs@,
                        (#[trigger] self.rows@[a]).key@,
                    ) && (#[trigger] self.rows@[a]).size_uncompressed
                        == self.rows@[a].key@.len() by {
                        assert(self.rows@[a].key == old(self).rows@[a].key);
                        assert(has_blob(old(self).store.blobs@, old(self).rows@[a].key@));
                    }
                    assert forall|a: int| 0 <= a < self.store.blobs@.len() implies has_row(
                        self.rows@,
                        (#[trigger] self.store.blobs@[a]).key@,
                    ) by {
                        let k = self.store.blobs@[a].key@;
                        assert(has_row(old(self).rows@, k));
                        let u = choose|u: int|
                            0 <= u < old(self).rows@.len() && old(self).rows@[u].key@ == k;
                        assert(self.rows@[u].key == old(self).rows@[u].key);
                        assert(self.rows@[u].key@ == k);
                    }
                }
            }
            orig = orig + 1;
        }
        proof {
            assert(e0.skip(orig as int).len() == 0);
            assert(orig as int == e0.len());
            assert(e0.take(e0.len() as int) =~= e0);
            assert(self.entries@ =~= e0.filter(p));
        }
        let ghost cpre = self.caches@;
        self.caches.remove(ci);
        proof {
            broadcast use vstd::seq_lib::group_filter_ensures;

            assert forall|a: int, b: int|
                0 <= a < b < self.caches@.len() implies (#[trigger] self.caches@[a]).id != (
            #[trigger] self.caches@[b]).id && self.caches@[a].name@ != self.caches@[b].name@ by {
                let pa = if a < ci as int {
                    a
                } else {
                    a + 1
                };
                let pb = if b < ci as int {
                    b
                } else {
                    b + 1
                };
                assert(self.caches@[a] == cpre[pa]);
                assert(self.caches@[b] == cpre[pb]);
            }
            assert forall|a: int|
                0 <= a < self.caches@.len() implies (#[trigger] self.caches@[a]).id
                < self.next_cache_id by {
                let pa = if a < ci as int {
                    a
                } else {
                    a + 1
                };
                assert(self.caches@[a] == cpre[pa]);
            }
            assert forall|a: int|
                0 <= a < self.caches@.len() implies (#[trigger] self.caches@[a]).id
                != cache_id by {
                let pa = if a < ci as int {
                    a
                } else {
                    a + 1
                };
                assert(self.caches@[a] == cpre[pa]);
                if pa < ci as int {
                    assert(cpre[pa].id != cpre[ci as int].id);
                } else {
                    assert(cpre[ci as int].id != cpre[pa].id);
                }
            }
            assert forall|a: int| 0 <= a < self.entries@.len() implies crate::model::has_cache(
                self.caches@,
                (#[trigger] self.entries@[a]).cache_id,
            ) by {
                e0.lemma_filter_pred(p, a);
                assert(self.entries@[a].cache_id != cache_id);
                assert(crate::model::has_cache(cpre, self.entries@[a].cache_id));
                let w = choose|w: int|
                    0 <= w < cpre.len() && cpre[w].id == self.entries@[a].cache_id;
                assert(w != ci as int);
                if w < ci as int {
                    assert(self.caches@[w].id == self.entries@[a].cache_id);
                } else {
                    assert(self.caches@[w - 1].id == self.entries@[a].cache_id);
                }
            }
        }
        Ok(())
    }
}

} // verus!
