//! Brute-force flat index: the exact baseline every approximate index is
//! measured against.

use vstd::prelude::*;
use std::collections::HashSet;
use vstd::string::*;
use crate::batch::VectorBatch;
use crate::metric::Metric;
use crate::text::{decimal, decimal_string};
use crate::topk::{ScoredId, is_top_k, is_top_k_desc, top_k_smallest, top_k_largest};

verus! {

broadcast use vstd::std_specs::hash::group_hash_axioms;

/// A flat (brute-force) vector index backed by contiguous storage.
///
/// `ids[i]` is the external ID of row `i` of `batch`.
#[derive(Debug, Clone)]
pub struct FlatIndex {
    /// Contiguous vector storage.
    pub batch: VectorBatch,
    /// External ID of each row.
    pub ids: Vec<u64>,
    /// Distance metric used for search queries.
    pub metric: Metric,
}

/// The abstract contents of a flat index.
pub ghost struct FlatIndexView {
    pub ids: Seq<u64>,
    pub data: Seq<u32>,
    pub dim: nat,
    pub num_vectors: nat,
    pub metric: Metric,
}

impl FlatIndexView {
    /// One row of `dim` coordinates per ID, and no ID twice.
    pub open spec fn wf(self) -> bool {
        &&& self.data.len() == self.dim * self.num_vectors
        &&& self.ids.len() == self.num_vectors
        &&& self.ids.no_duplicates()
    }

    /// Row `i`.
    pub open spec fn row(self, i: int) -> Seq<u32> {
        self.data.subrange(i * self.dim, i * self.dim + self.dim)
    }

    /// The vector stored under `id`, if any.
    pub open spec fn vector_of(self, id: u64) -> Option<Seq<u32>> {
        if self.ids.contains(id) {
            Some(self.row(self.ids.index_of(id)))
        } else {
            None
        }
    }

    /// The index after storing `x` under `id`.
    pub open spec fn with_vector(self, id: u64, x: Seq<u32>) -> FlatIndexView {
        FlatIndexView {
            ids: self.ids.push(id),
            data: self.data + x,
            dim: self.dim,
            num_vectors: self.num_vectors + 1,
            metric: self.metric,
        }
    }
}

/// In a sequence without repeats, a position holding `x` is the position
/// `index_of` names.
proof fn lemma_index_of_unique(s: Seq<u64>, i: int, x: u64)
    requires
        s.no_duplicates(),
        0 <= i < s.len(),
        s[i] == x,
    ensures
        s.index_of(x) == i,
{
    assert(s.contains(x));
    let j = s.index_of(x);
    assert(0 <= j < s.len() && s[j] == x);
}

/// A read gives back what a write stored, and a write leaves the vectors of
/// the other IDs as they were.
pub proof fn lemma_read_after_write(v: FlatIndexView, id: u64, x: Seq<u32>, other: u64)
    requires
        v.wf(),
        !v.ids.contains(id),
        x.len() == v.dim,
    ensures
        v.with_vector(id, x).wf(),
        v.with_vector(id, x).vector_of(id) == Some(x),
        other != id ==> v.with_vector(id, x).vector_of(other) == v.vector_of(other),
{
    let w = v.with_vector(id, x);
    let n = v.num_vectors as int;
    let d = v.dim as int;
    assert(w.data.len() == w.dim * w.num_vectors) by (nonlinear_arith)
        requires
            w.data.len() == v.data.len() + d,
            v.data.len() == d * n,
            w.dim == d,
            w.num_vectors == n + 1,
    ;
    assert forall|a: int, b: int| 0 <= a < w.ids.len() && 0 <= b < w.ids.len() && a != b implies w.ids[a]
        != w.ids[b] by {
        if a == n {
            assert(v.ids.contains(w.ids[b]));
        } else if b == n {
            assert(v.ids.contains(w.ids[a]));
        }
    }
    assert(w.ids[n] == id);
    lemma_index_of_unique(w.ids, n, id);
    assert(n * d == v.data.len()) by (nonlinear_arith)
        requires
            v.data.len() == d * n,
    ;
    assert(w.row(n) =~= x);
    if other != id && v.ids.contains(other) {
        let j = v.ids.index_of(other);
        assert(0 <= j < n && v.ids[j] == other);
        assert(w.ids[j] == other);
        lemma_index_of_unique(w.ids, j, other);
        assert(j * d + d <= n * d) by (nonlinear_arith)
            requires
                0 <= j < n,
                0 <= d,
        ;
        assert(w.row(j) =~= v.row(j));
    }
    if other != id && !v.ids.contains(other) {
        if w.ids.contains(other) {
            let j = choose|j: int| 0 <= j < w.ids.len() && w.ids[j] == other;
            assert(j != n);
            assert(v.ids[j] == other);
        }
    }
}

impl View for FlatIndex {
    type V = FlatIndexView;

    open spec fn view(&self) -> FlatIndexView {
        FlatIndexView {
            ids: self.ids@,
            data: self.batch.data@,
            dim: self.batch.dim as nat,
            num_vectors: self.batch.num_vectors as nat,
            metric: self.metric,
        }
    }
}

/// Why an insertion into a flat index is refused.
#[derive(Debug, Clone, Copy, PartialEq, Eq, Structural)]
pub enum InsertRejection {
    /// The vector does not have the index's dimension.
    DimensionMismatch { expected: usize, got: usize },
    /// The ID is already stored in the index.
    DuplicateId(u64),
}

/// Why a batch insertion into a flat index is refused.
#[derive(Debug, Clone, Copy, PartialEq, Eq, Structural)]
pub enum BatchRejection {
    /// The number of IDs differs from the number of vectors.
    CountMismatch { ids: usize, vectors: usize },
    /// The batch's dimension differs from the index's.
    DimensionMismatch { vectors: usize, index: usize },
    /// An ID occurs twice in the incoming batch.
    DuplicateInBatch(u64),
    /// An incoming ID is already stored in the index.
    DuplicateInIndex(u64),
}

/// The message of the error for an ID count that differs from the vector count.
pub open spec fn count_mismatch_message(ids: nat, vectors: nat) -> Seq<char> {
    "ids count ("@ + decimal(ids) + ") != vectors count ("@ + decimal(vectors) + ")"@
}

/// The message of the error for an ID that occurs twice.
pub open spec fn duplicate_id_message(id: u64) -> Seq<char> {
    "duplicate id "@ + decimal(id as nat)
}

/// The scored candidates formed by pairing each ID with the score at the
/// same position.
pub open spec fn candidates_of(ids: Seq<u64>, scores: Seq<u32>) -> Seq<ScoredId> {
    Seq::new(ids.len(), |i: int| ScoredId { id: ids[i], score_bits: scores[i] })
}

/// `r` is the top `k` of the candidates in the direction of `metric`:
/// smallest distances for Euclidean, largest similarities otherwise.
pub open spec fn ranked_by_metric(metric: Metric, c: Seq<ScoredId>, k: nat, r: Seq<ScoredId>) -> bool {
    match metric {
        Metric::Euclidean => exists|p: Seq<int>| is_top_k(c, c.len() as int, k, r, p),
        _ => exists|p: Seq<int>| is_top_k_desc(c, c.len() as int, k, r, p),
    }
}

/// The first position at which `id` occurs in `ids`, if any.
pub fn position_of(ids: &[u64], id: u64) -> (pos: Option<usize>)
    ensures
        pos matches Some(i) ==> i < ids@.len() && ids@[i as int] == id && forall|j: int|
            0 <= j < i ==> ids@[j] != id,
        pos is None ==> !ids@.contains(id),
{
    let mut i: usize = 0;
    while i < ids.len()
        invariant
            i <= ids@.len(),
            forall|j: int| 0 <= j < i ==> ids@[j] != id,
        decreases ids@.len() - i,
    {
        if ids[i] == id {
            return Some(i);
        }
        i = i + 1;
    }
    None
}

/// Merge two rows-of-vectors buffers: the rows of `a` followed by those of `b`.
proof fn lemma_rows_append(a: VectorBatch, b: Seq<u32>, n: nat)
    requires
        a.wf(),
        b.len() == a.dim * n,
    ensures
        (a.data@ + b).len() == a.dim * (a.num_vectors + n),
{
    assert(a.dim * (a.num_vectors + n) == a.dim * a.num_vectors + a.dim * n) by (nonlinear_arith);
}

impl FlatIndex {
    /// The storage holds one row per ID, and no ID occurs twice.
    pub open spec fn wf(&self) -> bool {
        &&& self.batch.wf()
        &&& self.ids@.len() == self.batch.num_vectors
        &&& self.ids@.no_duplicates()
    }

    /// Create an empty index for vectors of the given dimensionality.
    pub fn new(dim: usize, metric: Metric) -> (index: Self)
        ensures
            index.wf(),
            index.batch.dim == dim,
            index.batch.data@ == Seq::<u32>::empty(),
            index.ids@ == Seq::<u64>::empty(),
            index.metric == metric,
    {
        FlatIndex { batch: VectorBatch::new(dim), ids: Vec::new(), metric }
    }

    /// Assemble an index from its storage and IDs, checking that there is one
    /// ID per row and that no ID occurs twice.
    pub fn from_parts(batch: VectorBatch, ids: Vec<u64>, metric: Metric) -> (res: Result<Self, String>)
        requires
            batch.wf(),
        ensures
            res is Ok <==> ids@.len() == batch.num_vectors && ids@.no_duplicates(),
            res matches Ok(index) ==> index.wf() && index.batch == batch && index.ids@ == ids@
                && index.metric == metric,
            res matches Err(msg) ==> {
                ||| ids@.len() != batch.num_vectors && msg@ == count_mismatch_message(
                    ids@.len(),
                    batch.num_vectors as nat,
                )
                ||| ids@.len() == batch.num_vectors && exists|i: int, j: int|
                    0 <= j < i < ids@.len() && ids@[i] == ids@[j] && msg@ == duplicate_id_message(
                        ids@[i],
                    )
            },
    {
        if ids.len() != batch.num_vectors {
            let mut msg = String::from_str("ids count (");
            let s1 = decimal_string(ids.len() as u64);
            msg.append(s1.as_str());
            msg.append(") != vectors count (");
            let s2 = decimal_string(batch.num_vectors as u64);
            msg.append(s2.as_str());
            msg.append(")");
            return Err(msg);
        }
        match first_repeat(ids.as_slice()) {
            Some(i) => {
                let mut msg = String::from_str("duplicate id ");
                let s = decimal_string(ids[i]);
                msg.append(s.as_str());
                Err(msg)
            },
            None => Ok(FlatIndex { batch, ids, metric }),
        }
    }

    /// Insert a single vector with its external ID.
    pub fn add(&mut self, id: u64, vector: &[u32])
        requires
            old(self).wf(),
            vector@.len() == old(self).batch.dim,
            !old(self).ids@.contains(id),
            old(self).batch.num_vectors < usize::MAX,
        ensures
            final(self).wf(),
            final(self).metric == old(self).metric,
            final(self).batch.dim == old(self).batch.dim,
            final(self).ids@ == old(self).ids@.push(id),
            final(self).batch.data@ == old(self).batch.data@ + vector@,
            final(self)@ == old(self)@.with_vector(id, vector@),
    {
        self.batch.push(vector);
        self.ids.push(id);
        proof {
            assert forall|a: int, b: int|
                0 <= a < self.ids@.len() && 0 <= b < self.ids@.len() && a != b implies self.ids@[a]
                != self.ids@[b] by {
                if a == self.ids@.len() - 1 {
                    assert(old(self).ids@.contains(self.ids@[b]));
                } else if b == self.ids@.len() - 1 {
                    assert(old(self).ids@.contains(self.ids@[a]));
                }
            }
        }
    }

    /// Bulk-insert vectors with their external IDs.
    pub fn add_batch(&mut self, ids: &[u64], vectors: &VectorBatch)
        requires
            old(self).wf(),
            vectors.wf(),
            ids@.len() == vectors.num_vectors,
            vectors.dim == old(self).batch.dim,
            ids@.no_duplicates(),
            forall|i: int| 0 <= i < ids@.len() ==> !old(self).ids@.contains(#[trigger] ids@[i]),
            old(self).batch.num_vectors + vectors.num_vectors <= usize::MAX,
        ensures
            final(self).wf(),
            final(self).metric == old(self).metric,
            final(self).batch.dim == old(self).batch.dim,
            final(self).ids@ == old(self).ids@ + ids@,
            final(self).batch.data@ == old(self).batch.data@ + vectors.data@,
    {
        proof {
            lemma_rows_append(self.batch, vectors.data@, vectors.num_vectors as nat);
        }
        self.batch.data.extend_from_slice(vectors.data.as_slice());
        self.batch.num_vectors = self.batch.num_vectors + vectors.num_vectors;
        self.ids.extend_from_slice(ids);
        proof {
            assert(self.batch.data@ =~= old(self).batch.data@ + vectors.data@);
            assert(self.ids@ =~= old(self).ids@ + ids@);
            let o = old(self).ids@;
            assert forall|a: int, b: int|
                0 <= a < self.ids@.len() && 0 <= b < self.ids@.len() && a != b implies self.ids@[a]
                != self.ids@[b] by {
                if a < o.len() && b >= o.len() {
                    assert(!o.contains(ids@[b - o.len()]));
                } else if b < o.len() && a >= o.len() {
                    assert(!o.contains(ids@[a - o.len()]));
                }
            }
        }
    }

    /// Decide whether `id` with a vector of `vector_len` coordinates may be
    /// inserted: the dimension is checked first, then the ID.
    pub fn check_insert(&self, id: u64, vector_len: usize) -> (res: Result<(), InsertRejection>)
        requires
            self.wf(),
        ensures
            vector_len != self.batch.dim ==> res == Err::<(), InsertRejection>(
                (InsertRejection::DimensionMismatch { expected: self.batch.dim, got: vector_len }),
            ),
            vector_len == self.batch.dim && self.ids@.contains(id) ==> res == Err::<
                (),
                InsertRejection,
            >(InsertRejection::DuplicateId(id)),
            vector_len == self.batch.dim && !self.ids@.contains(id) ==> res is Ok,
    {
        if vector_len != self.batch.dim {
            return Err(InsertRejection::DimensionMismatch { expected: self.batch.dim, got: vector_len });
        }
        match position_of(self.ids.as_slice(), id) {
            Some(_) => Err(InsertRejection::DuplicateId(id)),
            None => Ok(()),
        }
    }

    /// Decide whether a batch may be inserted: the counts, then the
    /// dimension, then each incoming ID in order (a repeat within the batch,
    /// then a clash with the index).
    pub fn check_insert_batch(&self, ids: &[u64], vectors: &VectorBatch) -> (res: Result<(), BatchRejection>)
        requires
            self.wf(),
        ensures
            res is Ok <==> {
                &&& ids@.len() == vectors.num_vectors
                &&& vectors.dim == self.batch.dim
                &&& ids@.no_duplicates()
                &&& forall|i: int| 0 <= i < ids@.len() ==> !self.ids@.contains(#[trigger] ids@[i])
            },
            ids@.len() != vectors.num_vectors ==> res == Err::<(), BatchRejection>(
                (BatchRejection::CountMismatch { ids: ids@.len() as usize, vectors: vectors.num_vectors }),
            ),
            ids@.len() == vectors.num_vectors && vectors.dim != self.batch.dim ==> res == Err::<
                (),
                BatchRejection,
            >((BatchRejection::DimensionMismatch { vectors: vectors.dim, index: self.batch.dim })),
            res matches Err(BatchRejection::CountMismatch { .. }) ==> ids@.len() != vectors.num_vectors,
            res matches Err(BatchRejection::DimensionMismatch { .. }) ==> vectors.dim != self.batch.dim,
            res matches Err(BatchRejection::DuplicateInBatch(id)) ==> exists|i: int, j: int|
                0 <= j < i < ids@.len() && ids@[i] == id && ids@[j] == id,
            res matches Err(BatchRejection::DuplicateInIndex(id)) ==> ids@.contains(id)
                && self.ids@.contains(id),
    {
        if ids.len() != vectors.num_vectors {
            return Err(BatchRejection::CountMismatch { ids: ids.len(), vectors: vectors.num_vectors });
        }
        if vectors.dim != self.batch.dim {
            return Err(BatchRejection::DimensionMismatch { vectors: vectors.dim, index: self.batch.dim });
        }
        let mut seen: HashSet<u64> = HashSet::new();
        let mut i: usize = 0;
        while i < ids.len()
            invariant
                i <= ids@.len(),
                self.wf(),
                ids@.len() == vectors.num_vectors,
                vectors.dim == self.batch.dim,
                seen@ == ids@.subrange(0, i as int).to_set(),
                ids@.subrange(0, i as int).no_duplicates(),
                forall|t: int| 0 <= t < i ==> !self.ids@.contains(#[trigger] ids@[t]),
            decreases ids@.len() - i,
        {
            let id = ids[i];
            proof {
                assert(ids@.subrange(0, i as int + 1) =~= ids@.subrange(0, i as int).push(id));
            }
            if seen.contains(&id) {
                proof {
                    assert(ids@.subrange(0, i as int).contains(id));
                    let j = choose|j: int| 0 <= j < i && ids@.subrange(0, i as int)[j] == id;
                    assert(ids@[j] == id);
                }
                return Err(BatchRejection::DuplicateInBatch(id));
            }
            if position_of(self.ids.as_slice(), id).is_some() {
                proof {
                    assert(ids@[i as int] == id);
                }
                return Err(BatchRejection::DuplicateInIndex(id));
            }
            seen.insert(id);
            proof {
                assert(!ids@.subrange(0, i as int).contains(id));
                crate::seqs::lemma_push_to_set(ids@.subrange(0, i as int), id);
            }
            i = i + 1;
        }
        proof {
            assert(ids@.subrange(0, ids@.len() as int) =~= ids@);
        }
        Ok(())
    }

    /// Number of vectors currently stored.
    pub fn len(&self) -> (n: usize)
        ensures
            n == self.batch.num_vectors,
    {
        self.batch.num_vectors
    }

    /// Returns `true` if the index contains no vectors.
    pub fn is_empty(&self) -> (b: bool)
        ensures
            b == (self.batch.num_vectors == 0),
    {
        self.batch.num_vectors == 0
    }

    /// Dimensionality of vectors in this index.
    pub fn dim(&self) -> (d: usize)
        ensures
            d == self.batch.dim,
    {
        self.batch.dim
    }

    /// Look up a vector by its external ID.
    pub fn get_vector(&self, id: u64) -> (v: Option<&[u32]>)
        requires
            self.wf(),
        ensures
            v is Some <==> self.ids@.contains(id),
            v matches Some(row) ==> self@.vector_of(id) == Some(row@),
    {
        match position_of(self.ids.as_slice(), id) {
            Some(i) => {
                proof {
                    lemma_index_of_unique(self.ids@, i as int, id);
                }
                Some(self.batch.get(i))
            },
            None => None,
        }
    }

    /// Rank stored vectors by precomputed scores: `scores[i]` is the bit
    /// pattern of the score of row `i`. Returns the best `k`: smallest
    /// distances for Euclidean, largest similarities for Cosine and
    /// DotProduct.
    pub fn rank_scores(&self, scores: &[u32], k: usize) -> (result: Vec<ScoredId>)
        requires
            self.wf(),
            scores@.len() == self.ids@.len(),
        ensures
            ranked_by_metric(self.metric, candidates_of(self.ids@, scores@), k as nat, result@),
    {
        let mut candidates: Vec<ScoredId> = Vec::new();
        let mut i: usize = 0;
        while i < scores.len()
            invariant
                i <= scores@.len(),
                scores@.len() == self.ids@.len(),
                candidates@ =~= candidates_of(self.ids@, scores@).subrange(0, i as int),
            decreases scores@.len() - i,
        {
            candidates.push(ScoredId { id: self.ids[i], score_bits: scores[i] });
            i = i + 1;
        }
        proof {
            assert(candidates@ =~= candidates_of(self.ids@, scores@));
        }
        match self.metric {
            Metric::Euclidean => top_k_smallest(candidates.as_slice(), k),
            _ => top_k_largest(candidates.as_slice(), k),
        }
    }
}

/// The first position whose ID already occurred earlier, if any.
pub fn first_repeat(ids: &[u64]) -> (res: Option<usize>)
    ensures
        res is None <==> ids@.no_duplicates(),
        res matches Some(i) ==> i < ids@.len() && exists|j: int| 0 <= j < i && ids@[j] == ids@[i as int],
{
    let mut seen: HashSet<u64> = HashSet::new();
    let mut i: usize = 0;
    while i < ids.len()
        invariant
            i <= ids@.len(),
            seen@ == ids@.subrange(0, i as int).to_set(),
            ids@.subrange(0, i as int).no_duplicates(),
        decreases ids@.len() - i,
    {
        let id = ids[i];
        proof {
            assert(ids@.subrange(0, i as int + 1) =~= ids@.subrange(0, i as int).push(id));
        }
        if seen.contains(&id) {
            proof {
                assert(ids@.subrange(0, i as int).contains(id));
                let j = choose|j: int| 0 <= j < i && ids@.subrange(0, i as int)[j] == id;
                assert(ids@[j] == id);
                assert(ids@[j] == ids@[i as int]);
            }
            return Some(i);
        }
        proof {
            assert(!ids@.subrange(0, i as int).to_set().contains(id));
        }
        seen.insert(id);
        proof {
            crate::seqs::lemma_push_to_set(ids@.subrange(0, i as int), id);
        }
        i = i + 1;
    }
    proof {
        assert(ids@.subrange(0, ids@.len() as int) =~= ids@);
    }
    None
}

} // verus!
