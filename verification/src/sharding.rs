//! Hash-based routing of vectors to shards, and a sharded flat index.
//!
//! Every vector is stored in the shard that [`shard_for_id`] assigns to its
//! ID; a query fans out to every shard and the local top-`k` lists are merged
//! into one global top-`k`.

use vstd::prelude::*;
use crate::batch::VectorBatch;
use crate::flat_index::{FlatIndex, BatchRejection, ranked_by_metric, first_repeat, candidates_of};
use crate::metric::Metric;
use crate::topk::{ScoredId, top_k_smallest, top_k_largest, is_top_k, is_top_k_desc, key_of, desc_key_of, precedes, precedes_desc};
use vstd::set_lib::{lemma_len_subset, lemma_subset_equality, lemma_int_range, set_int_range};

verus! {

/// The SplitMix64 finalizer applied to an ID.
pub open spec fn mix64(id: u64) -> u64 {
    let z0 = id.wrapping_add(0x9e3779b97f4a7c15u64);
    let z1 = (z0 ^ (z0 >> 30u64)).wrapping_mul(0xbf58476d1ce4e5b9u64);
    let z2 = (z1 ^ (z1 >> 27u64)).wrapping_mul(0x94d049bb133111ebu64);
    z2 ^ (z2 >> 31u64)
}

/// The shard that owns `id` among `num_shards` shards.
pub open spec fn shard_of(id: u64, num_shards: usize) -> int {
    ((mix64(id) as usize) % num_shards) as int
}

/// Maps an external vector ID to the index of the shard that stores it.
///
/// The ID is mixed with SplitMix64, so that dense or strided ID patterns
/// still spread evenly, and reduced modulo `num_shards`.
pub fn shard_for_id(id: u64, num_shards: usize) -> (shard: usize)
    requires
        num_shards > 0,
    ensures
        shard == shard_of(id, num_shards),
        shard < num_shards,
{
    let mut z = id.wrapping_add(0x9e3779b97f4a7c15u64);
    z = (z ^ (z >> 30u64)).wrapping_mul(0xbf58476d1ce4e5b9u64);
    z = (z ^ (z >> 27u64)).wrapping_mul(0x94d049bb133111ebu64);
    z = z ^ (z >> 31u64);
    (z as usize) % num_shards
}

/// The IDs among the first `len` entries of `ids` that route to `shard`, in
/// their order.
pub open spec fn bucket(ids: Seq<u64>, num_shards: usize, shard: int, len: int) -> Seq<u64>
    decreases len,
{
    if len <= 0 {
        Seq::empty()
    } else {
        let prev = bucket(ids, num_shards, shard, len - 1);
        if shard_of(ids[len - 1], num_shards) == shard {
            prev.push(ids[len - 1])
        } else {
            prev
        }
    }
}

/// The rows among the first `len` entries that route to `shard`, concatenated
/// in their order.
pub open spec fn bucket_data(ids: Seq<u64>, rows: Seq<Seq<u32>>, num_shards: usize, shard: int, len: int) -> Seq<u32>
    decreases len,
{
    if len <= 0 {
        Seq::empty()
    } else {
        let prev = bucket_data(ids, rows, num_shards, shard, len - 1);
        if shard_of(ids[len - 1], num_shards) == shard {
            prev + rows[len - 1]
        } else {
            prev
        }
    }
}

/// Every entry of a bucket comes from the routed prefix of `ids`.
pub proof fn lemma_bucket_members(ids: Seq<u64>, num_shards: usize, shard: int, len: int)
    requires
        0 <= len <= ids.len(),
    ensures
        bucket(ids, num_shards, shard, len).len() <= len,
        forall|j: int|
            0 <= j < bucket(ids, num_shards, shard, len).len() ==> exists|i: int|
                0 <= i < len && ids[i] == #[trigger] bucket(ids, num_shards, shard, len)[j] && shard_of(
                    ids[i],
                    num_shards,
                ) == shard,
    decreases len,
{
    if len > 0 {
        lemma_bucket_members(ids, num_shards, shard, len - 1);
        let prev = bucket(ids, num_shards, shard, len - 1);
        let b = bucket(ids, num_shards, shard, len);
        assert forall|j: int| 0 <= j < b.len() implies exists|i: int|
            0 <= i < len && ids[i] == #[trigger] b[j] && shard_of(ids[i], num_shards) == shard by {
            if j < prev.len() {
                assert(b[j] == prev[j]);
                let i = choose|i: int| 0 <= i < len - 1 && ids[i] == prev[j] && shard_of(ids[i], num_shards) == shard;
                assert(ids[i] == b[j]);
            } else {
                assert(ids[len - 1] == b[j]);
            }
        }
    }
}

/// An entry of the prefix that routes to `shard` is in that shard's bucket.
pub proof fn lemma_bucket_has(ids: Seq<u64>, num_shards: usize, len: int, i: int)
    requires
        0 <= i < len <= ids.len(),
    ensures
        bucket(ids, num_shards, shard_of(ids[i], num_shards), len).contains(ids[i]),
    decreases len,
{
    let s = shard_of(ids[i], num_shards);
    if i < len - 1 {
        lemma_bucket_has(ids, num_shards, len - 1, i);
        let prev = bucket(ids, num_shards, s, len - 1);
        let j = choose|j: int| 0 <= j < prev.len() && prev[j] == ids[i];
        assert(bucket(ids, num_shards, s, len)[j] == ids[i]);
    } else {
        let b = bucket(ids, num_shards, s, len);
        assert(b[b.len() - 1] == ids[i]);
    }
}

/// A bucket of distinct IDs holds distinct IDs.
pub proof fn lemma_bucket_distinct(ids: Seq<u64>, num_shards: usize, shard: int, len: int)
    requires
        0 <= len <= ids.len(),
        ids.no_duplicates(),
    ensures
        bucket(ids, num_shards, shard, len).no_duplicates(),
    decreases len,
{
    if len > 0 {
        lemma_bucket_distinct(ids, num_shards, shard, len - 1);
        lemma_bucket_members(ids, num_shards, shard, len - 1);
        let prev = bucket(ids, num_shards, shard, len - 1);
        let b = bucket(ids, num_shards, shard, len);
        if shard_of(ids[len - 1], num_shards) == shard {
            assert forall|a: int, c: int| 0 <= a < b.len() && 0 <= c < b.len() && a != c implies b[a] != b[c] by {
                if a == b.len() - 1 && c < prev.len() {
                    assert(b[c] == prev[c]);
                    let i = choose|i: int| 0 <= i < len - 1 && ids[i] == #[trigger] prev[c] && shard_of(ids[i], num_shards) == shard;
                } else if c == b.len() - 1 && a < prev.len() {
                    assert(b[a] == prev[a]);
                    let i = choose|i: int| 0 <= i < len - 1 && ids[i] == #[trigger] prev[a] && shard_of(ids[i], num_shards) == shard;
                } else {
                    assert(b[a] == prev[a]);
                    assert(b[c] == prev[c]);
                }
            }
        }
    }
}

/// Shards before `upto` hold their old contents followed by their bucket of
/// the batch; the others are unchanged.
pub open spec fn batch_applied(
    old_shards: Seq<FlatIndex>,
    new_shards: Seq<FlatIndex>,
    ids: Seq<u64>,
    rows: Seq<Seq<u32>>,
    num_shards: usize,
    upto: int,
) -> bool {
    &&& new_shards.len() == old_shards.len()
    &&& forall|t: int|
        0 <= t < old_shards.len() ==> if t < upto {
            &&& (#[trigger] new_shards[t]).ids@ == old_shards[t].ids@ + bucket(ids, num_shards, t, ids.len() as int)
            &&& new_shards[t].batch.data@ == old_shards[t].batch.data@ + bucket_data(
                ids,
                rows,
                num_shards,
                t,
                ids.len() as int,
            )
        } else {
            new_shards[t] == old_shards[t]
        }
}

/// The number of vectors stored across `shards`.
pub open spec fn total_len(shards: Seq<FlatIndex>) -> nat
    decreases shards.len(),
{
    if shards.len() == 0 {
        0
    } else {
        total_len(shards.drop_last()) + shards.last().batch.num_vectors as nat
    }
}

/// The vectors of a prefix of the shards are no more than those of all.
pub proof fn lemma_total_prefix(shards: Seq<FlatIndex>, i: int)
    requires
        0 <= i <= shards.len(),
    ensures
        total_len(shards.subrange(0, i)) <= total_len(shards),
    decreases shards.len() - i,
{
    if i < shards.len() {
        lemma_total_prefix(shards, i + 1);
        assert(shards.subrange(0, i + 1).drop_last() =~= shards.subrange(0, i));
    } else {
        assert(shards.subrange(0, i) =~= shards);
    }
}

/// Why a sharded insertion is refused.
#[derive(Debug, Clone, Copy, PartialEq, Eq, Structural)]
pub enum ShardRejection {
    /// The number of IDs differs from the number of vectors.
    CountMismatch { ids: usize, vectors: usize },
    /// A vector does not have the index's dimension.
    DimensionMismatch { expected: usize, got: usize },
    /// An ID occurs twice in the incoming batch.
    DuplicateInBatch(u64),
    /// An ID is already stored in its shard.
    DuplicateInShard { shard: usize, id: u64 },
}

/// A flat index partitioned across independent shards by [`shard_for_id`].
#[derive(Debug)]
pub struct ShardedFlatIndex {
    /// The shards; shard `s` holds exactly the IDs that route to `s`.
    pub shards: Vec<FlatIndex>,
    pub num_shards: usize,
    pub dim: usize,
    pub metric: Metric,
}

/// A routed shard is one of the shards.
proof fn lemma_shard_of_bound(id: u64, num_shards: usize)
    requires
        num_shards > 0,
    ensures
        0 <= shard_of(id, num_shards) < num_shards,
{
}

/// What adding `id` with vector `x` to `a` does, leaving `b`: it succeeds
/// (`ok`) exactly when `x` has the index's dimension and no shard holds `id`;
/// then the shard `id` routes to gains `id` and `x` at its end and the other
/// shards stay as they were; otherwise nothing changes.
pub open spec fn add_effect(a: ShardedFlatIndex, id: u64, x: Seq<u32>, ok: bool, b: ShardedFlatIndex) -> bool {
    &&& ok <==> (x.len() == a.dim && !a.contains(id))
    &&& b.num_shards == a.num_shards
    &&& b.shards@.len() == a.shards@.len()
    &&& ok ==> {
        let s = shard_of(id, a.num_shards);
        &&& b.shards@[s].ids@ == a.shards@[s].ids@.push(id)
        &&& b.shards@[s].batch.data@ == a.shards@[s].batch.data@ + x
        &&& forall|t: int| 0 <= t < a.shards@.len() && t != s ==> b.shards@[t] == a.shards@[t]
    }
    &&& !ok ==> b.shards@ == a.shards@
}

/// Adding a vector of the index's dimension under an ID that no shard holds
/// succeeds, and afterwards exactly the IDs held before and the new one are
/// held, the new one in the shard it routes to, last; any other add is
/// refused and leaves every shard as it was.
pub proof fn lemma_add_stores_new_ids(a: ShardedFlatIndex, id: u64, x: Seq<u32>, ok: bool, b: ShardedFlatIndex)
    requires
        a.wf(),
        add_effect(a, id, x, ok, b),
    ensures
        ok <==> (x.len() == a.dim && !a.contains(id)),
        ok ==> b.contains(id) && b.shards@[shard_of(id, a.num_shards)].ids@.last() == id,
        forall|other: u64| other != id ==> (b.contains(other) <==> a.contains(other)),
        !ok ==> b.shards@ == a.shards@,
{
    if ok {
        let s = shard_of(id, a.num_shards);
        lemma_shard_of_bound(id, a.num_shards);
        let l = b.shards@[s].ids@;
        assert(l[l.len() - 1] == id);
        assert(b.shards@[s].ids@.contains(id));
        assert forall|other: u64| other != id implies (b.contains(other) <==> a.contains(other)) by {
            if b.contains(other) {
                let t = choose|t: int| 0 <= t < b.shards@.len() && (#[trigger] b.shards@[t]).ids@.contains(other);
                if t == s {
                    let i = choose|i: int| 0 <= i < l.len() && l[i] == other;
                    assert(i < l.len() - 1);
                    assert(a.shards@[s].ids@[i] == other);
                    assert(a.shards@[s].ids@.contains(other));
                } else {
                    assert(a.shards@[t].ids@.contains(other));
                }
            }
            if a.contains(other) {
                let t = choose|t: int| 0 <= t < a.shards@.len() && (#[trigger] a.shards@[t]).ids@.contains(other);
                if t == s {
                    let i = choose|i: int| 0 <= i < a.shards@[s].ids@.len() && a.shards@[s].ids@[i] == other;
                    assert(l[i] == other);
                    assert(b.shards@[s].ids@.contains(other));
                } else {
                    assert(b.shards@[t] == a.shards@[t]);
                    assert(b.shards@[t].ids@.contains(other));
                }
            }
        }
    }
}

impl ShardedFlatIndex {
    /// Every shard is a well-formed flat index of the common dimension and
    /// metric, and holds only IDs routed to it.
    pub open spec fn wf(&self) -> bool {
        &&& self.num_shards > 0
        &&& self.shards@.len() == self.num_shards
        &&& forall|s: int|
            0 <= s < self.shards@.len() ==> {
                &&& (#[trigger] self.shards@[s]).wf()
                &&& self.shards@[s].batch.dim == self.dim
                &&& self.shards@[s].metric == self.metric
                &&& forall|i: int|
                    0 <= i < self.shards@[s].ids@.len() ==> shard_of(
                        #[trigger] self.shards@[s].ids@[i],
                        self.num_shards,
                    ) == s
            }
    }

    /// Whether `id` is stored in some shard.
    pub open spec fn contains(&self, id: u64) -> bool {
        exists|s: int| 0 <= s < self.shards@.len() && (#[trigger] self.shards@[s]).ids@.contains(id)
    }

    /// Create `num_shards` empty shards.
    pub fn new(dim: usize, num_shards: usize, metric: Metric) -> (index: Self)
        requires
            num_shards > 0,
            dim > 0,
        ensures
            index.wf(),
            index.num_shards == num_shards,
            index.dim == dim,
            index.metric == metric,
            forall|s: int| 0 <= s < num_shards ==> (#[trigger] index.shards@[s]).ids@.len() == 0,
    {
        let mut shards: Vec<FlatIndex> = Vec::new();
        let mut s: usize = 0;
        while s < num_shards
            invariant
                s <= num_shards,
                shards@.len() == s,
                forall|t: int|
                    0 <= t < s ==> {
                        &&& (#[trigger] shards@[t]).wf()
                        &&& shards@[t].batch.dim == dim
                        &&& shards@[t].metric == metric
                        &&& shards@[t].ids@.len() == 0
                    },
            decreases num_shards - s,
        {
            shards.push(FlatIndex::new(dim, metric));
            s = s + 1;
        }
        ShardedFlatIndex { shards, num_shards, dim, metric }
    }

    /// Insert one vector into the shard its ID routes to.
    ///
    /// Refused when the vector has another dimension, or when the ID is
    /// already stored; the index is then unchanged.
    pub fn add(&mut self, id: u64, vector: &[u32]) -> (res: Result<(), ShardRejection>)
        requires
            old(self).wf(),
            old(self).shards@[shard_of(id, old(self).num_shards)].batch.num_vectors < usize::MAX,
        ensures
            final(self).wf(),
            final(self).num_shards == old(self).num_shards,
            final(self).dim == old(self).dim,
            final(self).metric == old(self).metric,
            vector@.len() != old(self).dim ==> res == Err::<(), ShardRejection>(
                (ShardRejection::DimensionMismatch { expected: old(self).dim, got: vector@.len() as usize }),
            ),
            vector@.len() == old(self).dim && old(self).contains(id) ==> res == Err::<(), ShardRejection>(
                (ShardRejection::DuplicateInShard {
                    shard: shard_of(id, old(self).num_shards) as usize,
                    id,
                }),
            ),
            res is Err ==> final(self).shards@ == old(self).shards@,
            add_effect(*old(self), id, vector@, res is Ok, *final(self)),
            res is Ok ==> vector@.len() == old(self).dim && !old(self).contains(id) && ({
                let s = shard_of(id, old(self).num_shards);
                &&& final(self).shards@[s].ids@ == old(self).shards@[s].ids@.push(id)
                &&& final(self).shards@[s].batch.data@ == old(self).shards@[s].batch.data@ + vector@
                &&& forall|t: int|
                    0 <= t < old(self).num_shards && t != s ==> final(self).shards@[t] == old(
                        self,
                    ).shards@[t]
            }),
    {
        if vector.len() != self.dim {
            return Err(ShardRejection::DimensionMismatch { expected: self.dim, got: vector.len() });
        }
        let s = shard_for_id(id, self.num_shards);
        proof {
            if self.contains(id) {
                let t = choose|t: int| 0 <= t < self.shards@.len() && (#[trigger] self.shards@[t]).ids@.contains(id);
                let i = choose|i: int| 0 <= i < self.shards@[t].ids@.len() && self.shards@[t].ids@[i] == id;
                assert(shard_of(self.shards@[t].ids@[i], self.num_shards) == t);
            }
        }
        match self.shards[s].check_insert(id, vector.len()) {
            Err(_) => {
                return Err(ShardRejection::DuplicateInShard { shard: s, id });
            },
            Ok(()) => {},
        }
        let ghost before = self.shards@;
        let mut shard = self.shards.remove(s);
        shard.add(id, vector);
        self.shards.insert(s, shard);
        proof {
            assert forall|t: int| 0 <= t < self.shards@.len() && t != s implies self.shards@[t] == before[t] by {
                if t < s {
                    assert(self.shards@[t] == before[t]);
                } else {
                    assert(self.shards@[t] == before[t]);
                }
            }
            assert forall|t: int| 0 <= t < self.shards@.len() implies {
                &&& (#[trigger] self.shards@[t]).wf()
                &&& self.shards@[t].batch.dim == self.dim
                &&& self.shards@[t].metric == self.metric
                &&& forall|i: int|
                    0 <= i < self.shards@[t].ids@.len() ==> shard_of(
                        #[trigger] self.shards@[t].ids@[i],
                        self.num_shards,
                    ) == t
            } by {
                if t == s {
                    assert forall|i: int| 0 <= i < self.shards@[t].ids@.len() implies shard_of(
                        #[trigger] self.shards@[t].ids@[i],
                        self.num_shards,
                    ) == t by {
                        if i < before[t].ids@.len() {
                            assert(self.shards@[t].ids@[i] == before[t].ids@[i]);
                        }
                    }
                }
            }
        }
        Ok(())
    }

    /// Insert a batch: each vector goes to the shard its ID routes to.
    ///
    /// The batch is checked as a whole first (counts, dimension, no ID twice),
    /// then split into one bucket per shard, and each non-empty bucket is
    /// inserted into its shard in shard order. A bucket that meets an ID its
    /// shard already holds stops the insertion there: the shards before it
    /// keep their buckets, it and the later shards are unchanged.
    #[verifier::rlimit(60)]
    pub fn add_batch(&mut self, ids: &[u64], vectors: &VectorBatch) -> (res: Result<(), ShardRejection>)
        requires
            old(self).wf(),
            vectors.wf(),
            forall|t: int|
                0 <= t < old(self).num_shards ==> (#[trigger] old(self).shards@[t]).batch.num_vectors
                    + ids@.len() <= usize::MAX,
        ensures
            final(self).wf(),
            final(self).num_shards == old(self).num_shards,
            final(self).dim == old(self).dim,
            final(self).metric == old(self).metric,
            ids@.len() != vectors.num_vectors ==> res == Err::<(), ShardRejection>(
                (ShardRejection::CountMismatch { ids: ids@.len() as usize, vectors: vectors.num_vectors }),
            ),
            ids@.len() == vectors.num_vectors && vectors.dim != old(self).dim ==> res == Err::<
                (),
                ShardRejection,
            >((ShardRejection::DimensionMismatch { expected: old(self).dim, got: vectors.dim })),
            ids@.len() == vectors.num_vectors && vectors.dim == old(self).dim && !ids@.no_duplicates()
                ==> (res matches Err(ShardRejection::DuplicateInBatch(id)) && exists|i: int, j: int|
                0 <= j < i < ids@.len() && ids@[i] == id && ids@[j] == id),
            ids@.len() == vectors.num_vectors && vectors.dim == old(self).dim && ids@.no_duplicates()
                ==> (res is Ok <==> forall|i: int| 0 <= i < ids@.len() ==> !old(self).contains(#[trigger] ids@[i])),
            res is Ok ==> ids@.len() == vectors.num_vectors && vectors.dim == old(self).dim
                && ids@.no_duplicates() && batch_applied(
                old(self).shards@,
                final(self).shards@,
                ids@,
                vectors.rows(),
                old(self).num_shards,
                old(self).num_shards as int,
            ),
            res matches Err(ShardRejection::DuplicateInShard { shard, id }) ==> {
                &&& shard == shard_of(id, old(self).num_shards)
                &&& ids@.contains(id)
                &&& old(self).shards@[shard as int].ids@.contains(id)
                &&& batch_applied(
                    old(self).shards@,
                    final(self).shards@,
                    ids@,
                    vectors.rows(),
                    old(self).num_shards,
                    shard as int,
                )
            },
            res is Err && !(res->Err_0 is DuplicateInShard) ==> final(self).shards@ == old(self).shards@,
    {
        if ids.len() != vectors.num_vectors {
            return Err(ShardRejection::CountMismatch { ids: ids.len(), vectors: vectors.num_vectors });
        }
        if vectors.dim != self.dim {
            return Err(ShardRejection::DimensionMismatch { expected: self.dim, got: vectors.dim });
        }
        match first_repeat(ids) {
            Some(i) => {
                return Err(ShardRejection::DuplicateInBatch(ids[i]));
            },
            None => {},
        }
        let ns = self.num_shards;
        let n = ids.len();
        let dim = self.dim;
        let ghost rows = vectors.rows();
        let mut bucket_ids: Vec<Vec<u64>> = Vec::new();
        let mut bucket_vecs: Vec<Vec<u32>> = Vec::new();
        let mut t: usize = 0;
        while t < ns
            invariant
                t <= ns,
                bucket_ids@.len() == t,
                bucket_vecs@.len() == t,
                forall|u: int|
                    0 <= u < t ==> (#[trigger] bucket_ids@[u])@ == Seq::<u64>::empty()
                        && bucket_vecs@[u]@ == Seq::<u32>::empty(),
            decreases ns - t,
        {
            bucket_ids.push(Vec::new());
            bucket_vecs.push(Vec::new());
            t = t + 1;
        }
        proof {
            assert forall|u: int| 0 <= u < ns implies {
                &&& (#[trigger] bucket_ids@[u])@ == bucket(ids@, ns, u, 0)
                &&& bucket_vecs@[u]@ == bucket_data(ids@, rows, ns, u, 0)
                &&& bucket_vecs@[u]@.len() == dim * bucket_ids@[u]@.len()
            } by {
                assert(bucket(ids@, ns, u, 0) == Seq::<u64>::empty());
                assert(bucket_data(ids@, rows, ns, u, 0) == Seq::<u32>::empty());
            }
        }
        let mut i: usize = 0;
        while i < n
            invariant
                i <= n,
                n == ids@.len(),
                n == vectors.num_vectors,
                vectors.wf(),
                vectors.dim == dim,
                ns > 0,
                rows == vectors.rows(),
                bucket_ids@.len() == ns,
                bucket_vecs@.len() == ns,
                forall|u: int|
                    0 <= u < ns ==> {
                        &&& (#[trigger] bucket_ids@[u])@ == bucket(ids@, ns, u, i as int)
                        &&& bucket_vecs@[u]@ == bucket_data(ids@, rows, ns, u, i as int)
                        &&& bucket_vecs@[u]@.len() == dim * bucket_ids@[u]@.len()
                    },
            decreases n - i,
        {
            let id = ids[i];
            let s = shard_for_id(id, ns);
            let row = vectors.get(i);
            let ghost before_ids = bucket_ids@;
            let ghost before_vecs = bucket_vecs@;
            let mut b = bucket_ids.remove(s);
            b.push(id);
            bucket_ids.insert(s, b);
            let mut v = bucket_vecs.remove(s);
            v.extend_from_slice(row);
            bucket_vecs.insert(s, v);
            proof {
                assert(row@ == rows[i as int]);
                assert forall|u: int| 0 <= u < ns implies {
                    &&& (#[trigger] bucket_ids@[u])@ == bucket(ids@, ns, u, i + 1)
                    &&& bucket_vecs@[u]@ == bucket_data(ids@, rows, ns, u, i + 1)
                    &&& bucket_vecs@[u]@.len() == dim * bucket_ids@[u]@.len()
                } by {
                    if u == s {
                        assert(bucket_ids@[u]@ == before_ids[u]@.push(id));
                        assert(bucket_vecs@[u]@ == before_vecs[u]@ + row@);
                        assert(dim * (before_ids[u]@.len() + 1) == dim * before_ids[u]@.len() + dim)
                            by (nonlinear_arith);
                    } else {
                        assert(bucket_ids@[u] == before_ids[u]);
                        assert(bucket_vecs@[u] == before_vecs[u]);
                    }
                }
            }
            i = i + 1;
        }
        let ghost old_shards = self.shards@;
        let mut s: usize = 0;
        while s < ns
            invariant
                s <= ns,
                n == ids@.len(),
                n == vectors.num_vectors,
                vectors.dim == dim,
                ids@.no_duplicates(),
                ns == self.num_shards,
                dim == self.dim,
                self.wf(),
                self.num_shards == old(self).num_shards,
                self.dim == old(self).dim,
                self.metric == old(self).metric,
                old_shards == old(self).shards@,
                old_shards.len() == ns,
                rows == vectors.rows(),
                forall|t: int|
                    0 <= t < ns ==> (#[trigger] old_shards[t]).batch.num_vectors + n <= usize::MAX,
                bucket_ids@.len() == ns,
                bucket_vecs@.len() == ns,
                forall|u: int|
                    0 <= u < ns ==> {
                        &&& (#[trigger] bucket_ids@[u])@ == bucket(ids@, ns, u, n as int)
                        &&& bucket_vecs@[u]@ == bucket_data(ids@, rows, ns, u, n as int)
                        &&& bucket_vecs@[u]@.len() == dim * bucket_ids@[u]@.len()
                    },
                batch_applied(old_shards, self.shards@, ids@, rows, ns, s as int),
                forall|t: int, j: int|
                    0 <= t < s && 0 <= j < bucket(ids@, ns, t, n as int).len() ==> !old_shards[t].ids@.contains(
                        #[trigger] bucket(ids@, ns, t, n as int)[j],
                    ),
            decreases ns - s,
        {
            match self.apply_bucket(
                s,
                bucket_ids[s].as_slice(),
                bucket_vecs[s].as_slice(),
                Ghost(old_shards),
                Ghost(ids@),
                Ghost(rows),
            ) {
                Err(id) => {
                    proof {
                        lemma_bucket_members(ids@, ns, s as int, n as int);
                        let bs = bucket(ids@, ns, s as int, n as int);
                        let j = choose|j: int| 0 <= j < bs.len() && bs[j] == id;
                        let i0 = choose|i: int|
                            0 <= i < n && ids@[i] == #[trigger] bs[j] && shard_of(ids@[i], ns) == s;
                        assert(old(self).shards@[s as int].ids@.contains(id));
                        assert(old(self).contains(ids@[i0]));
                        assert(ids@.contains(id));
                        assert(shard_of(id, ns) == s);
                    }
                    return Err(ShardRejection::DuplicateInShard { shard: s, id });
                },
                Ok(()) => {},
            }
            s = s + 1;
        }
        proof {
            assert forall|i: int| 0 <= i < ids@.len() implies !old(self).contains(#[trigger] ids@[i]) by {
                let s0 = shard_of(ids@[i], ns);
                lemma_bucket_has(ids@, ns, n as int, i);
                let b = bucket(ids@, ns, s0, n as int);
                let j = choose|j: int| 0 <= j < b.len() && b[j] == ids@[i];
                assert(!old_shards[s0].ids@.contains(b[j]));
                if old(self).contains(ids@[i]) {
                    let t = choose|t: int| 0 <= t < old(self).shards@.len() && (#[trigger] old(self).shards@[t]).ids@.contains(ids@[i]);
                    let k = choose|k: int| 0 <= k < old_shards[t].ids@.len() && old_shards[t].ids@[k] == ids@[i];
                    assert(shard_of(old_shards[t].ids@[k], ns) == t);
                }
            }
        }
        Ok(())
    }

    /// One step of a batch insertion: apply shard `s`'s bucket on top of the
    /// shards before it, or report an ID the shard already holds.
    fn apply_bucket(
        &mut self,
        s: usize,
        b_ids: &[u64],
        b_data: &[u32],
        Ghost(old_shards): Ghost<Seq<FlatIndex>>,
        Ghost(ids): Ghost<Seq<u64>>,
        Ghost(rows): Ghost<Seq<Seq<u32>>>,
    ) -> (res: Result<(), u64>)
        requires
            old(self).wf(),
            s < old(self).num_shards,
            old_shards.len() == old(self).num_shards,
            batch_applied(old_shards, old(self).shards@, ids, rows, old(self).num_shards, s as int),
            ids.no_duplicates(),
            b_ids@ == bucket(ids, old(self).num_shards, s as int, ids.len() as int),
            b_data@ == bucket_data(ids, rows, old(self).num_shards, s as int, ids.len() as int),
            b_data@.len() == old(self).dim * b_ids@.len(),
            old_shards[s as int].batch.num_vectors + ids.len() <= usize::MAX,
        ensures
            final(self).wf(),
            final(self).num_shards == old(self).num_shards,
            final(self).dim == old(self).dim,
            final(self).metric == old(self).metric,
            res is Ok ==> batch_applied(old_shards, final(self).shards@, ids, rows, old(self).num_shards, s + 1)
                && forall|j: int|
                0 <= j < b_ids@.len() ==> !old_shards[s as int].ids@.contains(#[trigger] b_ids@[j]),
            res matches Err(id) ==> b_ids@.contains(id) && old_shards[s as int].ids@.contains(id),
            res is Err ==> final(self).shards@ == old(self).shards@,
    {
        let ghost ns = self.num_shards;
        proof {
            lemma_bucket_members(ids, ns, s as int, ids.len() as int);
            lemma_bucket_distinct(ids, ns, s as int, ids.len() as int);
            assert forall|j: int| 0 <= j < b_ids@.len() implies shard_of(#[trigger] b_ids@[j], ns) == s by {
                let i = choose|i: int| 0 <= i < ids.len() && ids[i] == #[trigger] b_ids@[j] && shard_of(ids[i], ns) == s;
            }
            assert(self.shards@[s as int] == old_shards[s as int]);
        }
        if b_ids.len() == 0 {
            proof {
                assert(old_shards[s as int].ids@ + b_ids@ =~= old_shards[s as int].ids@);
                assert(self.dim * b_ids@.len() == 0) by (nonlinear_arith)
                    requires
                        b_ids@.len() == 0,
                ;
                assert(old_shards[s as int].batch.data@ + b_data@ =~= old_shards[s as int].batch.data@);
            }
            return Ok(());
        }
        let mut data: Vec<u32> = Vec::new();
        data.extend_from_slice(b_data);
        let ghost before = self.shards@;
        match self.insert_bucket(s, b_ids, data) {
            Err(id) => {
                return Err(id);
            },
            Ok(()) => {},
        }
        proof {
            assert forall|t: int| 0 <= t < old_shards.len() implies if t < s + 1 {
                &&& (#[trigger] self.shards@[t]).ids@ == old_shards[t].ids@ + bucket(ids, ns, t, ids.len() as int)
                &&& self.shards@[t].batch.data@ == old_shards[t].batch.data@ + bucket_data(ids, rows, ns, t, ids.len() as int)
            } else {
                self.shards@[t] == old_shards[t]
            } by {
                if t != s {
                    assert(self.shards@[t] == before[t]);
                }
            }
        }
        Ok(())
    }

    /// Insert a bucket of IDs that all route to shard `s` into that shard,
    /// unless the shard already holds one of them, which is returned.
    fn insert_bucket(&mut self, s: usize, b_ids: &[u64], b_data: Vec<u32>) -> (res: Result<(), u64>)
        requires
            old(self).wf(),
            s < old(self).num_shards,
            b_data@.len() == old(self).dim * b_ids@.len(),
            b_ids@.no_duplicates(),
            forall|j: int| 0 <= j < b_ids@.len() ==> shard_of(#[trigger] b_ids@[j], old(self).num_shards) == s,
            old(self).shards@[s as int].batch.num_vectors + b_ids@.len() <= usize::MAX,
        ensures
            final(self).wf(),
            final(self).num_shards == old(self).num_shards,
            final(self).dim == old(self).dim,
            final(self).metric == old(self).metric,
            final(self).shards@.len() == old(self).shards@.len(),
            res is Ok <==> forall|j: int|
                0 <= j < b_ids@.len() ==> !old(self).shards@[s as int].ids@.contains(#[trigger] b_ids@[j]),
            res matches Err(id) ==> b_ids@.contains(id) && old(self).shards@[s as int].ids@.contains(id),
            res is Err ==> final(self).shards@ == old(self).shards@,
            res is Ok ==> {
                &&& final(self).shards@[s as int].ids@ == old(self).shards@[s as int].ids@ + b_ids@
                &&& final(self).shards@[s as int].batch.data@ == old(self).shards@[s as int].batch.data@ + b_data@
                &&& forall|t: int|
                    0 <= t < old(self).shards@.len() && t != s ==> #[trigger] final(self).shards@[t]
                        == old(self).shards@[t]
            },
    {
        let count = b_ids.len();
        let ghost data = b_data@;
        let batch = VectorBatch { data: b_data, dim: self.dim, num_vectors: count };
        match self.shards[s].check_insert_batch(b_ids, &batch) {
            Err(BatchRejection::DuplicateInIndex(id)) => {
                return Err(id);
            },
            Err(_) => {
                proof {
                    assert(false);
                }
                return Err(0);
            },
            Ok(()) => {},
        }
        let ghost before = self.shards@;
        let mut shard = self.shards.remove(s);
        shard.add_batch(b_ids, &batch);
        self.shards.insert(s, shard);
        proof {
            assert forall|t: int| 0 <= t < before.len() && t != s implies #[trigger] self.shards@[t] == before[t] by {
                if t < s {
                    assert(self.shards@[t] == before[t]);
                } else {
                    assert(self.shards@[t] == before[t]);
                }
            }
            assert forall|i: int| 0 <= i < self.shards@[s as int].ids@.len() implies shard_of(
                #[trigger] self.shards@[s as int].ids@[i],
                self.num_shards,
            ) == s by {
                if i >= before[s as int].ids@.len() {
                    assert(self.shards@[s as int].ids@[i] == b_ids@[i - before[s as int].ids@.len()]);
                } else {
                    assert(self.shards@[s as int].ids@[i] == before[s as int].ids@[i]);
                }
            }
        }
        Ok(())
    }

    /// Merge candidate lists gathered from the shards into the global top `k`,
    /// in the direction of the index's metric.
    pub fn merge_candidates(&self, candidates: &[ScoredId], k: usize) -> (result: Vec<ScoredId>)
        ensures
            ranked_by_metric(self.metric, candidates@, k as nat, result@),
    {
        match self.metric {
            Metric::Euclidean => top_k_smallest(candidates, k),
            _ => top_k_largest(candidates, k),
        }
    }

    /// Fan-out and merge: rank the scored vectors of each shard (`scores[s]`
    /// holds the score of each vector of shard `s`, in storage order) to its
    /// local top `k`, then merge the local lists into the global top `k`.
    pub fn rank_shard_scores(&self, scores: &Vec<Vec<u32>>, k: usize) -> (result: Vec<ScoredId>)
        requires
            self.wf(),
            scores@.len() == self.shards@.len(),
            forall|s: int| 0 <= s < scores@.len() ==> (#[trigger] scores@[s])@.len() == self.shards@[s].ids@.len(),
        ensures
            ({
                let cs = Seq::new(self.shards@.len(), |s: int| candidates_of(self.shards@[s].ids@, scores@[s]@));
                &&& result@.len() == (if k < concat_lists(cs).len() { k as int } else { concat_lists(cs).len() as int })
                &&& forall|t: int| 0 <= t < result@.len() ==> concat_lists(cs).contains(#[trigger] result@[t])
                &&& self.metric is Euclidean ==> {
                    &&& forall|t: int, u: int|
                        0 <= t < u < result@.len() ==> key_of(#[trigger] result@[t]) <= key_of(#[trigger] result@[u])
                    &&& forall|i: int, j: int|
                        0 <= i < cs.len() && 0 <= j < cs[i].len() && result@.len() > 0 && key_of(#[trigger] cs[i][j])
                            < key_of(result@.last()) ==> result@.contains(cs[i][j])
                }
                &&& !(self.metric is Euclidean) ==> {
                    &&& forall|t: int, u: int|
                        0 <= t < u < result@.len() ==> desc_key_of(#[trigger] result@[t]) >= desc_key_of(#[trigger] result@[u])
                    &&& forall|i: int, j: int|
                        0 <= i < cs.len() && 0 <= j < cs[i].len() && result@.len() > 0 && desc_key_of(#[trigger] cs[i][j])
                            > desc_key_of(result@.last()) ==> result@.contains(cs[i][j])
                }
            }),
    {
        let ghost cs = Seq::new(self.shards@.len(), |s: int| candidates_of(self.shards@[s].ids@, scores@[s]@));
        let mut all: Vec<ScoredId> = Vec::new();
        let ghost mut ls: Seq<Seq<ScoredId>> = Seq::empty();
        let ghost mut ps: Seq<Seq<int>> = Seq::empty();
        let mut s: usize = 0;
        while s < self.shards.len()
            invariant
                self.wf(),
                s <= self.shards@.len(),
                scores@.len() == self.shards@.len(),
                forall|t: int| 0 <= t < scores@.len() ==> (#[trigger] scores@[t])@.len() == self.shards@[t].ids@.len(),
                cs == Seq::new(self.shards@.len(), |t: int| candidates_of(self.shards@[t].ids@, scores@[t]@)),
                ls.len() == s,
                ps.len() == s,
                all@ == concat_lists(ls),
                self.metric is Euclidean ==> forall|t: int|
                    0 <= t < s ==> is_top_k(#[trigger] cs[t], cs[t].len() as int, k as nat, ls[t], ps[t]),
                !(self.metric is Euclidean) ==> forall|t: int|
                    0 <= t < s ==> is_top_k_desc(#[trigger] cs[t], cs[t].len() as int, k as nat, ls[t], ps[t]),
            decreases self.shards@.len() - s,
        {
            let local = self.shards[s].rank_scores(scores[s].as_slice(), k);
            let ghost pl = if self.metric is Euclidean {
                choose|p: Seq<int>| is_top_k(cs[s as int], cs[s as int].len() as int, k as nat, local@, p)
            } else {
                choose|p: Seq<int>| is_top_k_desc(cs[s as int], cs[s as int].len() as int, k as nat, local@, p)
            };
            proof {
                assert(self.shards@[s as int].metric == self.metric);
                assert(cs[s as int] == candidates_of(self.shards@[s as int].ids@, scores@[s as int]@));
            }
            let ghost before = ls;
            all.extend_from_slice(local.as_slice());
            proof {
                ls = ls.push(local@);
                ps = ps.push(pl);
                assert(ls.drop_last() =~= before);
                assert(all@ =~= concat_lists(ls));
            }
            s = s + 1;
        }
        let merged = self.merge_candidates(all.as_slice(), k);
        proof {
            assert(ls.len() == cs.len());
            if self.metric is Euclidean {
                let p = choose|p: Seq<int>| is_top_k(all@, all@.len() as int, k as nat, merged@, p);
                lemma_merged_top_k_is_global(cs, ls, ps, k as nat, merged@, p);
            } else {
                let p = choose|p: Seq<int>| is_top_k_desc(all@, all@.len() as int, k as nat, merged@, p);
                lemma_merged_top_k_desc_is_global(cs, ls, ps, k as nat, merged@, p);
            }
        }
        merged
    }

    /// Number of vectors in each shard.
    pub fn shard_sizes(&self) -> (sizes: Vec<usize>)
        ensures
            sizes@.len() == self.shards@.len(),
            forall|s: int| 0 <= s < sizes@.len() ==> sizes@[s] == (#[trigger] self.shards@[s]).batch.num_vectors,
    {
        let mut sizes: Vec<usize> = Vec::new();
        let mut s: usize = 0;
        while s < self.shards.len()
            invariant
                s <= self.shards@.len(),
                sizes@.len() == s,
                forall|t: int| 0 <= t < s ==> sizes@[t] == (#[trigger] self.shards@[t]).batch.num_vectors,
            decreases self.shards@.len() - s,
        {
            sizes.push(self.shards[s].len());
            s = s + 1;
        }
        sizes
    }

    /// Total number of vectors across all shards.
    pub fn len(&self) -> (n: usize)
        requires
            total_len(self.shards@) <= usize::MAX,
        ensures
            n == total_len(self.shards@),
    {
        let mut total: usize = 0;
        let mut s: usize = 0;
        while s < self.shards.len()
            invariant
                s <= self.shards@.len(),
                total == total_len(self.shards@.subrange(0, s as int)),
                total_len(self.shards@) <= usize::MAX,
            decreases self.shards@.len() - s,
        {
            proof {
                assert(self.shards@.subrange(0, s as int + 1).drop_last() =~= self.shards@.subrange(0, s as int));
                lemma_total_prefix(self.shards@, s as int + 1);
            }
            total = total + self.shards[s].len();
            s = s + 1;
        }
        proof {
            assert(self.shards@.subrange(0, s as int) =~= self.shards@);
        }
        total
    }

    /// Whether no shard holds a vector.
    pub fn is_empty(&self) -> (b: bool)
        requires
            total_len(self.shards@) <= usize::MAX,
        ensures
            b == (total_len(self.shards@) == 0),
    {
        self.len() == 0
    }

    /// Vector dimensionality.
    pub fn dim(&self) -> (d: usize)
        ensures
            d == self.dim,
    {
        self.dim
    }

    /// Distance metric.
    pub fn metric(&self) -> (m: Metric)
        ensures
            m == self.metric,
    {
        self.metric
    }

    /// Number of shards.
    pub fn num_shards(&self) -> (n: usize)
        ensures
            n == self.num_shards,
    {
        self.num_shards
    }
}

/// The concatenation of candidate lists, in list order.
pub open spec fn concat_lists(ls: Seq<Seq<ScoredId>>) -> Seq<ScoredId>
    decreases ls.len(),
{
    if ls.len() == 0 {
        Seq::empty()
    } else {
        concat_lists(ls.drop_last()) + ls.last()
    }
}

/// Element `t` of list `i` sits in the concatenation after the lists
/// before `i`.
pub proof fn lemma_concat_lists_index(ls: Seq<Seq<ScoredId>>, i: int, t: int)
    requires
        0 <= i < ls.len(),
        0 <= t < ls[i].len(),
    ensures
        concat_lists(ls.take(i)).len() + ls[i].len() <= concat_lists(ls).len(),
        concat_lists(ls)[concat_lists(ls.take(i)).len() + t] == ls[i][t],
    decreases ls.len(),
{
    let init = ls.drop_last();
    if i < ls.len() - 1 {
        lemma_concat_lists_index(init, i, t);
        assert(init.take(i) =~= ls.take(i));
        assert(init[i] == ls[i]);
    } else {
        assert(ls.take(i) =~= init);
    }
}

/// Every element of the concatenation comes from one of the lists.
pub proof fn lemma_concat_lists_member(ls: Seq<Seq<ScoredId>>, q: int)
    requires
        0 <= q < concat_lists(ls).len(),
    ensures
        exists|i: int, t: int|
            0 <= i < ls.len() && 0 <= t < ls[i].len() && concat_lists(ls)[q] == #[trigger] ls[i][t],
    decreases ls.len(),
{
    let init = ls.drop_last();
    let a = concat_lists(init);
    if q < a.len() {
        lemma_concat_lists_member(init, q);
        let (i, t) = choose|i: int, t: int|
            0 <= i < init.len() && 0 <= t < init[i].len() && a[q] == #[trigger] init[i][t];
        assert(ls[i][t] == init[i][t]);
    } else {
        assert(concat_lists(ls)[q] == ls[ls.len() - 1][q - a.len()]);
    }
}

/// A top-`k` list is ordered by key and its positions are distinct.
pub proof fn lemma_top_k_shape(c: Seq<ScoredId>, n: int, k: nat, r: Seq<ScoredId>, p: Seq<int>)
    requires
        is_top_k(c, n, k, r, p),
    ensures
        p.no_duplicates(),
        forall|t: int, u: int| 0 <= t < u < r.len() ==> key_of(#[trigger] r[t]) <= key_of(#[trigger] r[u]),
{
    assert forall|t: int, u: int| 0 <= t < p.len() && 0 <= u < p.len() && t != u implies p[t] != p[u] by {
        if t < u {
            assert(precedes(c, p[t], p[u]));
        } else {
            assert(precedes(c, p[u], p[t]));
        }
    }
    assert forall|t: int, u: int| 0 <= t < u < r.len() implies key_of(#[trigger] r[t]) <= key_of(#[trigger] r[u]) by {
        assert(precedes(c, p[t], p[u]));
    }
}

/// Distinct positions below `n`, `n` of them, are all the positions.
proof fn lemma_positions_cover(p: Seq<int>, n: int, j: int)
    requires
        p.no_duplicates(),
        p.len() == n,
        forall|t: int| 0 <= t < p.len() ==> 0 <= #[trigger] p[t] < n,
        0 <= j < n,
    ensures
        p.contains(j),
{
    p.unique_seq_to_set();
    lemma_int_range(0, n);
    let ps = p.to_set();
    let full = set_int_range(0, n);
    assert(ps.subset_of(full)) by {
        assert forall|x: int| ps.contains(x) implies full.contains(x) by {
            let t = choose|t: int| 0 <= t < p.len() && p[t] == x;
        }
    }
    lemma_subset_equality(ps, full);
    assert(full.contains(j));
    assert(ps.contains(j));
}

/// Distinct positions all found among the distinct positions of `p`, which
/// holds one more, are fewer than those of `p`.
proof fn lemma_positions_fewer(p: Seq<int>, q: Seq<int>, extra: int)
    requires
        p.no_duplicates(),
        q.no_duplicates(),
        forall|t: int| 0 <= t < q.len() ==> p.contains(#[trigger] q[t]),
        p.contains(extra),
        !q.contains(extra),
    ensures
        q.len() < p.len(),
{
    p.unique_seq_to_set();
    q.unique_seq_to_set();
    let ps = p.to_set();
    let qs = q.to_set();
    assert(qs.subset_of(ps.remove(extra))) by {
        assert forall|x: int| qs.contains(x) implies ps.remove(extra).contains(x) by {
            let t = choose|t: int| 0 <= t < q.len() && q[t] == x;
        }
    }
    lemma_len_subset(qs, ps.remove(extra));
}

/// Merging the local top-`k` lists of shards, as a sharded search does,
/// gives a global top-`k` of all the shards' candidates: the result is
/// ordered by score, holds `min(k, total)` candidates, and holds every
/// candidate of every shard that scores strictly better than its last entry.
pub proof fn lemma_merged_top_k_is_global(
    cs: Seq<Seq<ScoredId>>,
    ls: Seq<Seq<ScoredId>>,
    ps: Seq<Seq<int>>,
    k: nat,
    r: Seq<ScoredId>,
    p: Seq<int>,
)
    requires
        cs.len() == ls.len(),
        ps.len() == ls.len(),
        forall|i: int| 0 <= i < ls.len() ==> is_top_k(#[trigger] cs[i], cs[i].len() as int, k, ls[i], ps[i]),
        is_top_k(concat_lists(ls), concat_lists(ls).len() as int, k, r, p),
    ensures
        forall|t: int, u: int| 0 <= t < u < r.len() ==> key_of(#[trigger] r[t]) <= key_of(#[trigger] r[u]),
        forall|t: int| 0 <= t < r.len() ==> concat_lists(cs).contains(#[trigger] r[t]),
        r.len() == (if k < concat_lists(cs).len() { k as int } else { concat_lists(cs).len() as int }),
        forall|i: int, j: int|
            0 <= i < cs.len() && 0 <= j < cs[i].len() && r.len() > 0 && key_of(#[trigger] cs[i][j]) < key_of(r.last())
                ==> r.contains(cs[i][j]),
{
    let f = concat_lists(ls);
    lemma_top_k_shape(f, f.len() as int, k, r, p);
    // Every result entry is a candidate of some shard.
    assert forall|t: int| 0 <= t < r.len() implies concat_lists(cs).contains(#[trigger] r[t]) by {
        lemma_concat_lists_member(ls, p[t]);
        let (i, u) = choose|i: int, u: int| 0 <= i < ls.len() && 0 <= u < ls[i].len() && f[p[t]] == #[trigger] ls[i][u];
        assert(is_top_k(cs[i], cs[i].len() as int, k, ls[i], ps[i]));
        let j = ps[i][u];
        lemma_concat_lists_index(cs, i, j);
        assert(concat_lists(cs)[concat_lists(cs.take(i)).len() + j] == r[t]);
    }
    lemma_merged_len(cs, ls, ps, k);
    // Entries of the concatenation scoring below the last result entry are selected.
    assert forall|q: int| 0 <= q < f.len() && r.len() > 0 && key_of(#[trigger] f[q]) < key_of(r.last()) implies p.contains(q) by {
        if !p.contains(q) {
            assert(precedes(f, p.last(), q));
        }
    }
    assert forall|i: int, j: int|
        0 <= i < cs.len() && 0 <= j < cs[i].len() && r.len() > 0 && key_of(#[trigger] cs[i][j]) < key_of(r.last()) implies r.contains(
        cs[i][j],
    ) by {
        assert(is_top_k(cs[i], cs[i].len() as int, k, ls[i], ps[i]));
        let off = concat_lists(ls.take(i)).len() as int;
        lemma_top_k_shape(cs[i], cs[i].len() as int, k, ls[i], ps[i]);
        if ps[i].contains(j) {
            let t = choose|t: int| 0 <= t < ps[i].len() && ps[i][t] == j;
            lemma_concat_lists_index(ls, i, t);
            assert(f[off + t] == cs[i][j]);
            assert(p.contains(off + t));
            let u = choose|u: int| 0 <= u < p.len() && p[u] == off + t;
            assert(r[u] == cs[i][j]);
        } else {
            if ls[i].len() < k {
                lemma_positions_cover(ps[i], cs[i].len() as int, j);
            }
            assert(ls[i].len() == k);
            assert(precedes(cs[i], ps[i].last(), j));
            let q = Seq::new(k, |t: int| off + t);
            assert forall|t: int| 0 <= t < q.len() implies p.contains(#[trigger] q[t]) by {
                lemma_concat_lists_index(ls, i, t);
                if t < k - 1 {
                    assert(key_of(ls[i][t]) <= key_of(ls[i][k - 1]));
                }
                assert(ls[i][k - 1] == cs[i][ps[i].last()]);
                assert(f[off + t] == ls[i][t]);
            }
            assert(q.no_duplicates());
            assert(!q.contains(p.last())) by {
                if q.contains(p.last()) {
                    let t = choose|t: int| 0 <= t < q.len() && q[t] == p.last();
                    lemma_concat_lists_index(ls, i, t);
                    if t < k - 1 {
                        assert(key_of(ls[i][t]) <= key_of(ls[i][k - 1]));
                    }
                    assert(ls[i][k - 1] == cs[i][ps[i].last()]);
                }
            }
            lemma_positions_fewer(p, q, p.last());
        }
    }
}

/// The merged list has `min(k, total)` entries.
proof fn lemma_merged_len(cs: Seq<Seq<ScoredId>>, ls: Seq<Seq<ScoredId>>, ps: Seq<Seq<int>>, k: nat)
    requires
        cs.len() == ls.len(),
        ps.len() == ls.len(),
        forall|i: int| 0 <= i < ls.len() ==> is_top_k(#[trigger] cs[i], cs[i].len() as int, k, ls[i], ps[i]),
    ensures
        (if k < concat_lists(ls).len() { k as int } else { concat_lists(ls).len() as int }) == (if k
            < concat_lists(cs).len() {
            k as int
        } else {
            concat_lists(cs).len() as int
        }),
        concat_lists(ls).len() <= concat_lists(cs).len(),
    decreases ls.len(),
{
    if ls.len() > 0 {
        let n = ls.len() - 1;
        assert forall|i: int| 0 <= i < ls.drop_last().len() implies is_top_k(
            #[trigger] cs.drop_last()[i],
            cs.drop_last()[i].len() as int,
            k,
            ls.drop_last()[i],
            ps.drop_last()[i],
        ) by {
            assert(is_top_k(cs[i], cs[i].len() as int, k, ls[i], ps[i]));
        }
        lemma_merged_len(cs.drop_last(), ls.drop_last(), ps.drop_last(), k);
        assert(is_top_k(cs[n], cs[n].len() as int, k, ls[n], ps[n]));
    }
}

/// A descending top-`k` list is ordered by decreasing key and its
/// positions are distinct.
pub proof fn lemma_top_k_desc_shape(c: Seq<ScoredId>, n: int, k: nat, r: Seq<ScoredId>, p: Seq<int>)
    requires
        is_top_k_desc(c, n, k, r, p),
    ensures
        p.no_duplicates(),
        forall|t: int, u: int| 0 <= t < u < r.len() ==> desc_key_of(#[trigger] r[t]) >= desc_key_of(#[trigger] r[u]),
{
    assert forall|t: int, u: int| 0 <= t < p.len() && 0 <= u < p.len() && t != u implies p[t] != p[u] by {
        if t < u {
            assert(precedes_desc(c, p[t], p[u]));
        } else {
            assert(precedes_desc(c, p[u], p[t]));
        }
    }
    assert forall|t: int, u: int| 0 <= t < u < r.len() implies desc_key_of(#[trigger] r[t]) >= desc_key_of(#[trigger] r[u]) by {
        assert(precedes_desc(c, p[t], p[u]));
    }
}

/// Merging the local top-`k` lists of largest scores of shards, as a
/// sharded search under a similarity metric does, gives a global top-`k`:
/// the result is ordered by decreasing score, holds `min(k, total)`
/// candidates, and holds every candidate of every shard that scores
/// strictly higher than its last entry.
pub proof fn lemma_merged_top_k_desc_is_global(
    cs: Seq<Seq<ScoredId>>,
    ls: Seq<Seq<ScoredId>>,
    ps: Seq<Seq<int>>,
    k: nat,
    r: Seq<ScoredId>,
    p: Seq<int>,
)
    requires
        cs.len() == ls.len(),
        ps.len() == ls.len(),
        forall|i: int| 0 <= i < ls.len() ==> is_top_k_desc(#[trigger] cs[i], cs[i].len() as int, k, ls[i], ps[i]),
        is_top_k_desc(concat_lists(ls), concat_lists(ls).len() as int, k, r, p),
    ensures
        forall|t: int, u: int| 0 <= t < u < r.len() ==> desc_key_of(#[trigger] r[t]) >= desc_key_of(#[trigger] r[u]),
        forall|t: int| 0 <= t < r.len() ==> concat_lists(cs).contains(#[trigger] r[t]),
        r.len() == (if k < concat_lists(cs).len() { k as int } else { concat_lists(cs).len() as int }),
        forall|i: int, j: int|
            0 <= i < cs.len() && 0 <= j < cs[i].len() && r.len() > 0 && desc_key_of(#[trigger] cs[i][j]) > desc_key_of(r.last())
                ==> r.contains(cs[i][j]),
{
    let f = concat_lists(ls);
    lemma_top_k_desc_shape(f, f.len() as int, k, r, p);
    // Every result entry is a candidate of some shard.
    assert forall|t: int| 0 <= t < r.len() implies concat_lists(cs).contains(#[trigger] r[t]) by {
        lemma_concat_lists_member(ls, p[t]);
        let (i, u) = choose|i: int, u: int| 0 <= i < ls.len() && 0 <= u < ls[i].len() && f[p[t]] == #[trigger] ls[i][u];
        assert(is_top_k_desc(cs[i], cs[i].len() as int, k, ls[i], ps[i]));
        let j = ps[i][u];
        lemma_concat_lists_index(cs, i, j);
        assert(concat_lists(cs)[concat_lists(cs.take(i)).len() + j] == r[t]);
    }
    lemma_merged_len_desc(cs, ls, ps, k);
    // Entries of the concatenation scoring below the last result entry are selected.
    assert forall|q: int| 0 <= q < f.len() && r.len() > 0 && desc_key_of(#[trigger] f[q]) > desc_key_of(r.last()) implies p.contains(q) by {
        if !p.contains(q) {
            assert(precedes_desc(f, p.last(), q));
        }
    }
    assert forall|i: int, j: int|
        0 <= i < cs.len() && 0 <= j < cs[i].len() && r.len() > 0 && desc_key_of(#[trigger] cs[i][j]) > desc_key_of(r.last()) implies r.contains(
        cs[i][j],
    ) by {
        assert(is_top_k_desc(cs[i], cs[i].len() as int, k, ls[i], ps[i]));
        let off = concat_lists(ls.take(i)).len() as int;
        lemma_top_k_desc_shape(cs[i], cs[i].len() as int, k, ls[i], ps[i]);
        if ps[i].contains(j) {
            let t = choose|t: int| 0 <= t < ps[i].len() && ps[i][t] == j;
            lemma_concat_lists_index(ls, i, t);
            assert(f[off + t] == cs[i][j]);
            assert(p.contains(off + t));
            let u = choose|u: int| 0 <= u < p.len() && p[u] == off + t;
            assert(r[u] == cs[i][j]);
        } else {
            if ls[i].len() < k {
                lemma_positions_cover(ps[i], cs[i].len() as int, j);
            }
            assert(ls[i].len() == k);
            assert(precedes_desc(cs[i], ps[i].last(), j));
            let q = Seq::new(k, |t: int| off + t);
            assert forall|t: int| 0 <= t < q.len() implies p.contains(#[trigger] q[t]) by {
                lemma_concat_lists_index(ls, i, t);
                if t < k - 1 {
                    assert(desc_key_of(ls[i][t]) >= desc_key_of(ls[i][k - 1]));
                }
                assert(ls[i][k - 1] == cs[i][ps[i].last()]);
                assert(f[off + t] == ls[i][t]);
            }
            assert(q.no_duplicates());
            assert(!q.contains(p.last())) by {
                if q.contains(p.last()) {
                    let t = choose|t: int| 0 <= t < q.len() && q[t] == p.last();
                    lemma_concat_lists_index(ls, i, t);
                    if t < k - 1 {
                        assert(desc_key_of(ls[i][t]) >= desc_key_of(ls[i][k - 1]));
                    }
                    assert(ls[i][k - 1] == cs[i][ps[i].last()]);
                }
            }
            lemma_positions_fewer(p, q, p.last());
        }
    }
}

/// The merged descending list has `min(k, total)` entries.
proof fn lemma_merged_len_desc(cs: Seq<Seq<ScoredId>>, ls: Seq<Seq<ScoredId>>, ps: Seq<Seq<int>>, k: nat)
    requires
        cs.len() == ls.len(),
        ps.len() == ls.len(),
        forall|i: int| 0 <= i < ls.len() ==> is_top_k_desc(#[trigger] cs[i], cs[i].len() as int, k, ls[i], ps[i]),
    ensures
        (if k < concat_lists(ls).len() { k as int } else { concat_lists(ls).len() as int }) == (if k
            < concat_lists(cs).len() {
            k as int
        } else {
            concat_lists(cs).len() as int
        }),
        concat_lists(ls).len() <= concat_lists(cs).len(),
    decreases ls.len(),
{
    if ls.len() > 0 {
        let n = ls.len() - 1;
        assert forall|i: int| 0 <= i < ls.drop_last().len() implies is_top_k_desc(
            #[trigger] cs.drop_last()[i],
            cs.drop_last()[i].len() as int,
            k,
            ls.drop_last()[i],
            ps.drop_last()[i],
        ) by {
            assert(is_top_k_desc(cs[i], cs[i].len() as int, k, ls[i], ps[i]));
        }
        lemma_merged_len_desc(cs.drop_last(), ls.drop_last(), ps.drop_last(), k);
        assert(is_top_k_desc(cs[n], cs[n].len() as int, k, ls[n], ps[n]));
    }
}

} // verus!
