//! Product quantization: codebooks and the IVF-PQ index that stores
//! compressed codes.
//!
//! Training the codebooks and encoding a vector compare floating-point
//! distances; those choices are handed in as arguments here. Reconstruction
//! from a code, the index's bookkeeping and its validation are stated and
//! proved below.

use vstd::prelude::*;
use vstd::string::*;
use crate::batch::VectorBatch;
use crate::metric::Metric;
use crate::text::{decimal, decimal_string, framed, framed2};

verus! {

/// Configuration of product quantization.
#[derive(Debug, Clone, Copy, PartialEq, Eq, Structural)]
pub struct PQConfig {
    /// Number of subvectors (subquantizers); must divide the dimension.
    pub m: usize,
    /// Centroids per subquantizer codebook (at most 256: one byte per code).
    pub k_per_subvector: usize,
    /// Maximum Lloyd iterations per subvector clustering run.
    pub max_iterations: usize,
}

impl Default for PQConfig {
    fn default() -> (c: Self)
        ensures
            c.m == 8 && c.k_per_subvector == 256 && c.max_iterations == 100,
    {
        PQConfig { m: 8, k_per_subvector: 256, max_iterations: 100 }
    }
}

/// Trained codebooks: `codebooks[i]` holds the `k_per_subvector` centroids
/// of subvector position `i`, each of dimension `sub_dim`.
#[derive(Debug, Clone)]
pub struct PQCodebooks {
    pub m: usize,
    pub sub_dim: usize,
    pub k_per_subvector: usize,
    pub codebooks: Vec<VectorBatch>,
}

/// The centroid rows of each codebook.
pub open spec fn books_view(bs: Seq<VectorBatch>) -> Seq<Seq<u32>> {
    Seq::new(bs.len(), |i: int| bs[i].data@)
}

/// The concatenation of a sequence of coordinate runs.
pub open spec fn flatten(ws: Seq<Seq<u32>>) -> Seq<u32>
    decreases ws.len(),
{
    if ws.len() == 0 {
        Seq::empty()
    } else {
        flatten(ws.drop_last()) + ws.last()
    }
}

/// The reconstruction of a code: for each position, the chosen centroid of
/// that position's codebook, concatenated.
pub open spec fn reconstruct(books: Seq<VectorBatch>, code: Seq<u8>, len: int) -> Seq<u32>
    decreases len,
{
    if len <= 0 {
        Seq::empty()
    } else {
        reconstruct(books, code, len - 1) + books[len - 1].row(code[len - 1] as int)
    }
}

/// Why a code cannot be reconstructed.
#[derive(Debug, Clone, Copy, PartialEq, Eq, Structural)]
pub enum PqError {
    /// The code does not have one byte per subvector.
    CodeLength { expected: usize, got: usize },
    /// A code byte names no centroid of its codebook.
    CentroidOutOfBounds { index: usize, codebook: usize, len: usize },
}

impl PQCodebooks {
    /// `m` codebooks of `k_per_subvector` rows of dimension `sub_dim`.
    pub open spec fn wf(&self) -> bool {
        &&& self.codebooks@.len() == self.m
        &&& self.m * self.sub_dim <= usize::MAX
        &&& forall|i: int|
            0 <= i < self.codebooks@.len() ==> {
                &&& (#[trigger] self.codebooks@[i]).wf()
                &&& self.codebooks@[i].dim == self.sub_dim
                &&& self.codebooks@[i].num_vectors == self.k_per_subvector
            }
    }

    /// The full vector dimension, `m * sub_dim`.
    pub fn dim(&self) -> (d: usize)
        requires
            self.m * self.sub_dim <= usize::MAX,
        ensures
            d == self.m * self.sub_dim,
    {
        self.m * self.sub_dim
    }

    /// Reconstruct the approximate vector a code stands for.
    ///
    /// Refused when the code does not have `m` bytes, or when a byte is not a
    /// centroid index of its codebook (the first such position is reported).
    pub fn decode_vector(&self, code: &[u8]) -> (res: Result<Vec<u32>, PqError>)
        requires
            self.wf(),
        ensures
            code@.len() != self.m ==> res == Err::<Vec<u32>, PqError>(
                (PqError::CodeLength { expected: self.m, got: code@.len() as usize }),
            ),
            code@.len() == self.m ==> (res is Ok <==> forall|i: int|
                0 <= i < self.m ==> (#[trigger] code@[i]) < self.k_per_subvector),
            res matches Ok(v) ==> v@ == reconstruct(self.codebooks@, code@, self.m as int),
            res matches Err(PqError::CentroidOutOfBounds { index, codebook, len }) ==> {
                &&& codebook < self.m
                &&& index == code@[codebook as int]
                &&& len == self.k_per_subvector
                &&& index >= len
                &&& forall|i: int| 0 <= i < codebook ==> (#[trigger] code@[i]) < self.k_per_subvector
            },
    {
        if code.len() != self.m {
            return Err(PqError::CodeLength { expected: self.m, got: code.len() });
        }
        let mut out: Vec<u32> = Vec::new();
        let mut pos: usize = 0;
        while pos < code.len()
            invariant
                self.wf(),
                code@.len() == self.m,
                pos <= self.m,
                out@ == reconstruct(self.codebooks@, code@, pos as int),
                forall|i: int| 0 <= i < pos ==> (#[trigger] code@[i]) < self.k_per_subvector,
            decreases self.m - pos,
        {
            let cb = &self.codebooks[pos];
            let idx = code[pos] as usize;
            if idx >= cb.len() {
                return Err(PqError::CentroidOutOfBounds { index: idx, codebook: pos, len: cb.len() });
            }
            let row = cb.get(idx);
            out.extend_from_slice(row);
            pos = pos + 1;
        }
        Ok(out)
    }
}

/// An IVF index whose lists hold `(id, code)` pairs instead of vectors.
#[derive(Debug, Clone)]
pub struct IVFPQIndex {
    /// Coarse centroids at full precision, one row per cluster once trained.
    pub centroids: VectorBatch,
    /// The codebooks, present once trained.
    pub pq_codebooks: Option<PQCodebooks>,
    /// One list of `(id, code)` pairs per cluster.
    pub inverted_lists: Vec<Vec<(u64, Vec<u8>)>>,
    pub dim: usize,
    pub metric: Metric,
    pub is_trained: bool,
    pub pq_config: PQConfig,
}

/// The abstract content of an IVF-PQ index.
pub ghost struct IvfPqView {
    pub centroids: Seq<u32>,
    pub num_centroids: nat,
    /// The coordinates of each codebook, once trained.
    pub books: Option<Seq<Seq<u32>>>,
    pub lists: Seq<Seq<(u64, Seq<u8>)>>,
    pub dim: nat,
    pub metric: Metric,
    pub is_trained: bool,
    pub config: PQConfig,
}

impl View for IVFPQIndex {
    type V = IvfPqView;

    open spec fn view(&self) -> IvfPqView {
        IvfPqView {
            centroids: self.centroids.data@,
            num_centroids: self.centroids.num_vectors as nat,
            books: match self.pq_codebooks {
                Some(cb) => Some(books_view(cb.codebooks@)),
                None => None,
            },
            lists: code_lists_view(self.inverted_lists@),
            dim: self.dim as nat,
            metric: self.metric,
            is_trained: self.is_trained,
            config: self.pq_config,
        }
    }
}

/// The contents of one inverted list.
pub open spec fn entries_view(l: Seq<(u64, Vec<u8>)>) -> Seq<(u64, Seq<u8>)> {
    Seq::new(l.len(), |i: int| (l[i].0, l[i].1@))
}

/// The contents of all inverted lists.
pub open spec fn code_lists_view(ls: Seq<Vec<(u64, Vec<u8>)>>) -> Seq<Seq<(u64, Seq<u8>)>> {
    Seq::new(ls.len(), |i: int| entries_view(ls[i]@))
}

/// The number of entries across the lists.
pub open spec fn entries_total(ls: Seq<Seq<(u64, Seq<u8>)>>) -> nat
    decreases ls.len(),
{
    if ls.len() == 0 {
        0
    } else {
        entries_total(ls.drop_last()) + ls.last().len()
    }
}

/// Partial totals grow with the prefix.
pub proof fn lemma_entries_total_prefix(ls: Seq<Seq<(u64, Seq<u8>)>>, i: int)
    requires
        0 <= i <= ls.len(),
    ensures
        entries_total(ls.take(i)) <= entries_total(ls),
    decreases ls.len() - i,
{
    if i < ls.len() {
        lemma_entries_total_prefix(ls, i + 1);
        assert(ls.take(i + 1).drop_last() =~= ls.take(i));
    } else {
        assert(ls.take(i) =~= ls);
    }
}

/// The message of the error for a dimension that `m` does not divide.
pub open spec fn not_divisible_message(dim: nat, m: nat) -> Seq<char> {
    "IVFPQIndex::new: dimension "@ + decimal(dim) + " is not evenly divisible by m="@ + decimal(m)
        + " subvectors"@
}

/// The message of the error for too many centroids per codebook.
pub open spec fn too_many_centroids_message(k: nat) -> Seq<char> {
    "IVFPQIndex::new: k_per_subvector ("@ + decimal(k) + ") cannot exceed 256 for 1-byte encoding"@
}

/// The message of the error for using an untrained index.
pub open spec fn untrained_add_message() -> Seq<char> {
    "IVFPQIndex must be trained before adding vectors"@
}

/// The message of the error for a vector of another dimension.
pub open spec fn add_dim_message(expected: nat, got: nat) -> Seq<char> {
    "IVFPQIndex::add: expected vector dim "@ + decimal(expected) + ", got "@ + decimal(got)
}

/// The message of the error for a batch of another dimension.
pub open spec fn batch_dim_message(expected: nat, got: nat) -> Seq<char> {
    "IVFPQIndex::add_batch: expected vector dim "@ + decimal(expected) + ", got "@ + decimal(got)
}

/// The message of the error for a batch whose ID and vector counts differ.
pub open spec fn batch_count_message(ids: nat, vectors: nat) -> Seq<char> {
    "IVFPQIndex::add_batch: ids count ("@ + decimal(ids) + ") != vectors count ("@ + decimal(vectors) + ")"@
}

/// The message for training rows of another dimension.
pub open spec fn train_dim_message(got: nat, expected: nat) -> Seq<char> {
    "IVFPQIndex::train: training_data dimension "@ + decimal(got) + " != index dimension "@ + decimal(expected)
}

/// The message for a k-means cluster count other than the index's.
pub open spec fn train_k_message(k: nat, num_clusters: nat) -> Seq<char> {
    "IVFPQIndex::train: kmeans_config.k ("@ + decimal(k) + ") != num_clusters ("@ + decimal(num_clusters) + ")"@
}

/// The message for fewer training rows than clusters.
pub open spec fn train_rows_message(rows: nat, k: nat) -> Seq<char> {
    "IVFPQIndex::train: insufficient training vectors ("@ + decimal(rows) + ") for k="@ + decimal(k)
}

/// The message for searching an untrained index.
pub open spec fn untrained_search_message() -> Seq<char> {
    "IVFPQIndex must be trained before searching"@
}

/// The message for a query of another dimension.
pub open spec fn search_dim_message(got: nat, expected: nat) -> Seq<char> {
    "IVFPQIndex::search: query dimension "@ + decimal(got) + " != index dimension "@ + decimal(expected)
}

/// The message for a batch of queries of another dimension.
pub open spec fn search_batch_dim_message(got: nat, expected: nat) -> Seq<char> {
    "IVFPQIndex::search_batch: queries dim "@ + decimal(got) + " != index dim "@ + decimal(expected)
}

impl IVFPQIndex {
    /// The structural invariants: dimension split evenly across `m`
    /// subvectors, a trained index has one centroid per list and codebooks
    /// of the configured shape (an untrained one neither), and every code
    /// has one byte per subvector.
    pub open spec fn wf(&self) -> bool {
        &&& self.dim > 0
        &&& self.pq_config.m > 0
        &&& self.dim % self.pq_config.m == 0
        &&& 0 < self.pq_config.k_per_subvector <= 256
        &&& self.centroids.wf()
        &&& self.centroids.dim == self.dim
        &&& (self.is_trained ==> self.centroids.num_vectors == self.inverted_lists@.len())
        &&& (!self.is_trained ==> self.centroids.num_vectors == 0)
        &&& (self.is_trained <==> self.pq_codebooks is Some)
        &&& (self.pq_codebooks matches Some(cb) ==> {
            &&& cb.wf()
            &&& cb.m == self.pq_config.m
            &&& cb.k_per_subvector == self.pq_config.k_per_subvector
            &&& cb.sub_dim == self.dim / self.pq_config.m
        })
        &&& forall|c: int, j: int|
            0 <= c < self.inverted_lists@.len() && 0 <= j < self.inverted_lists@[c]@.len() ==> (
            #[trigger] self.inverted_lists@[c]@[j]).1@.len() == self.pq_config.m
    }

    /// Create an untrained index with `num_clusters` empty lists.
    ///
    /// Refused, in this order, when `dim` is 0, `num_clusters` is 0, `m` is
    /// 0, `m` does not divide `dim`, or `k_per_subvector` is not in
    /// `1..=256`.
    pub fn new(dim: usize, num_clusters: usize, pq_config: PQConfig) -> (res: Result<Self, String>)
        ensures
            res is Ok <==> (dim > 0 && num_clusters > 0 && pq_config.m > 0 && dim % pq_config.m == 0 && 0
                < pq_config.k_per_subvector <= 256),
            dim == 0 ==> (res matches Err(msg) && msg@ == "IVFPQIndex::new: dim must be greater than 0"@),
            dim > 0 && num_clusters == 0 ==> (res matches Err(msg) && msg@
                == "IVFPQIndex::new: num_clusters must be greater than 0"@),
            dim > 0 && num_clusters > 0 && pq_config.m == 0 ==> (res matches Err(msg) && msg@
                == "IVFPQIndex::new: pq_config.m must be greater than 0"@),
            dim > 0 && num_clusters > 0 && pq_config.m > 0 && dim % pq_config.m != 0 ==> (res matches Err(msg)
                && msg@ == not_divisible_message(dim as nat, pq_config.m as nat)),
            dim > 0 && num_clusters > 0 && pq_config.m > 0 && dim % pq_config.m == 0
                && pq_config.k_per_subvector == 0 ==> (res matches Err(msg) && msg@
                == "IVFPQIndex::new: k_per_subvector must be greater than 0"@),
            dim > 0 && num_clusters > 0 && pq_config.m > 0 && dim % pq_config.m == 0
                && pq_config.k_per_subvector > 256 ==> (res matches Err(msg) && msg@
                == too_many_centroids_message(pq_config.k_per_subvector as nat)),
            res matches Ok(index) ==> {
                &&& index.wf()
                &&& !index.is_trained
                &&& index.dim == dim
                &&& index.metric == Metric::Euclidean
                &&& index.pq_config == pq_config
                &&& index.centroids.num_vectors == 0
                &&& index.inverted_lists@.len() == num_clusters
                &&& forall|c: int| 0 <= c < num_clusters ==> (#[trigger] index.inverted_lists@[c])@.len() == 0
            },
    {
        if dim == 0 {
            return Err(String::from_str("IVFPQIndex::new: dim must be greater than 0"));
        }
        if num_clusters == 0 {
            return Err(String::from_str("IVFPQIndex::new: num_clusters must be greater than 0"));
        }
        if pq_config.m == 0 {
            return Err(String::from_str("IVFPQIndex::new: pq_config.m must be greater than 0"));
        }
        if dim % pq_config.m != 0 {
            let mut msg = String::from_str("IVFPQIndex::new: dimension ");
            let s1 = decimal_string(dim as u64);
            msg.append(s1.as_str());
            msg.append(" is not evenly divisible by m=");
            let s2 = decimal_string(pq_config.m as u64);
            msg.append(s2.as_str());
            msg.append(" subvectors");
            return Err(msg);
        }
        if pq_config.k_per_subvector == 0 {
            return Err(String::from_str("IVFPQIndex::new: k_per_subvector must be greater than 0"));
        }
        if pq_config.k_per_subvector > 256 {
            let mut msg = String::from_str("IVFPQIndex::new: k_per_subvector (");
            let s = decimal_string(pq_config.k_per_subvector as u64);
            msg.append(s.as_str());
            msg.append(") cannot exceed 256 for 1-byte encoding");
            return Err(msg);
        }
        let mut lists: Vec<Vec<(u64, Vec<u8>)>> = Vec::new();
        let mut c: usize = 0;
        while c < num_clusters
            invariant
                c <= num_clusters,
                lists@.len() == c,
                forall|t: int| 0 <= t < c ==> (#[trigger] lists@[t])@.len() == 0,
            decreases num_clusters - c,
        {
            lists.push(Vec::new());
            c = c + 1;
        }
        Ok(
            IVFPQIndex {
                centroids: VectorBatch::new(dim),
                pq_codebooks: None,
                inverted_lists: lists,
                dim,
                metric: Metric::Euclidean,
                is_trained: false,
                pq_config,
            },
        )
    }

    /// Number of coarse clusters.
    pub fn num_clusters(&self) -> (n: usize)
        ensures
            n == self.inverted_lists@.len(),
    {
        self.inverted_lists.len()
    }

    /// Total number of stored codes.
    pub fn len(&self) -> (n: usize)
        requires
            entries_total(code_lists_view(self.inverted_lists@)) <= usize::MAX,
        ensures
            n == entries_total(code_lists_view(self.inverted_lists@)),
    {
        let ghost ls = code_lists_view(self.inverted_lists@);
        let mut total: usize = 0;
        let mut c: usize = 0;
        while c < self.inverted_lists.len()
            invariant
                ls == code_lists_view(self.inverted_lists@),
                c <= ls.len(),
                total == entries_total(ls.take(c as int)),
                entries_total(ls) <= usize::MAX,
            decreases ls.len() - c,
        {
            proof {
                assert(ls.take(c as int + 1).drop_last() =~= ls.take(c as int));
                lemma_entries_total_prefix(ls, c as int + 1);
            }
            total = total + self.inverted_lists[c].len();
            c = c + 1;
        }
        proof {
            assert(ls.take(c as int) =~= ls);
        }
        total
    }

    /// Whether no code is stored.
    pub fn is_empty(&self) -> (b: bool)
        requires
            entries_total(code_lists_view(self.inverted_lists@)) <= usize::MAX,
        ensures
            b == (entries_total(code_lists_view(self.inverted_lists@)) == 0),
    {
        self.len() == 0
    }

    /// Vector dimensionality.
    pub fn dim(&self) -> (d: usize)
        ensures
            d == self.dim,
    {
        self.dim
    }

    /// Whether centroids and codebooks are trained.
    pub fn is_trained(&self) -> (t: bool)
        ensures
            t == self.is_trained,
    {
        self.is_trained
    }

    /// Number of codes in each list, in cluster order.
    pub fn cluster_sizes(&self) -> (sizes: Vec<usize>)
        ensures
            sizes@.len() == self.inverted_lists@.len(),
            forall|c: int| 0 <= c < sizes@.len() ==> sizes@[c] == (#[trigger] self.inverted_lists@[c])@.len(),
    {
        let mut sizes: Vec<usize> = Vec::new();
        let mut c: usize = 0;
        while c < self.inverted_lists.len()
            invariant
                c <= self.inverted_lists@.len(),
                sizes@.len() == c,
                forall|t: int| 0 <= t < c ==> sizes@[t] == (#[trigger] self.inverted_lists@[t])@.len(),
            decreases self.inverted_lists@.len() - c,
        {
            sizes.push(self.inverted_lists[c].len());
            c = c + 1;
        }
        sizes
    }

    /// Check that a vector of `vector_len` coordinates can be inserted: the
    /// index must be trained and the dimension must match.
    pub fn check_add(&self, vector_len: usize) -> (res: Result<(), String>)
        ensures
            !self.is_trained ==> (res matches Err(msg) && msg@ == untrained_add_message()),
            self.is_trained && vector_len != self.dim ==> (res matches Err(msg) && msg@ == add_dim_message(
                self.dim as nat,
                vector_len as nat,
            )),
            res is Ok <==> self.is_trained && vector_len == self.dim,
    {
        if !self.is_trained {
            return Err(String::from_str("IVFPQIndex must be trained before adding vectors"));
        }
        if vector_len != self.dim {
            let mut msg = String::from_str("IVFPQIndex::add: expected vector dim ");
            let s1 = decimal_string(self.dim as u64);
            msg.append(s1.as_str());
            msg.append(", got ");
            let s2 = decimal_string(vector_len as u64);
            msg.append(s2.as_str());
            return Err(msg);
        }
        Ok(())
    }

    /// Check that a batch of `vectors_len` vectors of dimension
    /// `vectors_dim` with `ids_len` IDs can be inserted: the index must be
    /// trained, then the dimension must match, then the counts.
    pub fn check_add_batch(&self, ids_len: usize, vectors_dim: usize, vectors_len: usize) -> (res: Result<
        (),
        String,
    >)
        ensures
            !self.is_trained ==> (res matches Err(msg) && msg@ == untrained_add_message()),
            self.is_trained && vectors_dim != self.dim ==> (res matches Err(msg) && msg@
                == batch_dim_message(self.dim as nat, vectors_dim as nat)),
            self.is_trained && vectors_dim == self.dim && ids_len != vectors_len ==> (res matches Err(msg)
                && msg@ == batch_count_message(ids_len as nat, vectors_len as nat)),
            res is Ok <==> self.is_trained && vectors_dim == self.dim && ids_len == vectors_len,
    {
        if !self.is_trained {
            return Err(String::from_str("IVFPQIndex must be trained before adding vectors"));
        }
        if vectors_dim != self.dim {
            let mut msg = String::from_str("IVFPQIndex::add_batch: expected vector dim ");
            let s1 = decimal_string(self.dim as u64);
            msg.append(s1.as_str());
            msg.append(", got ");
            let s2 = decimal_string(vectors_dim as u64);
            msg.append(s2.as_str());
            return Err(msg);
        }
        if ids_len != vectors_len {
            let mut msg = String::from_str("IVFPQIndex::add_batch: ids count (");
            let s1 = decimal_string(ids_len as u64);
            msg.append(s1.as_str());
            msg.append(") != vectors count (");
            let s2 = decimal_string(vectors_len as u64);
            msg.append(s2.as_str());
            msg.append(")");
            return Err(msg);
        }
        Ok(())
    }

    /// Check that training can start: the training rows must have the
    /// index's dimension, `k` must be the number of clusters, and there must
    /// be at least `k` rows.
    pub fn check_train(&self, training_dim: usize, k: usize, rows: usize) -> (res: Result<(), String>)
        ensures
            training_dim != self.dim ==> (res matches Err(msg) && msg@ == train_dim_message(
                training_dim as nat,
                self.dim as nat,
            )),
            training_dim == self.dim && k != self.inverted_lists@.len() ==> (res matches Err(msg) && msg@
                == train_k_message(k as nat, self.inverted_lists@.len())),
            training_dim == self.dim && k == self.inverted_lists@.len() && rows < k ==> (res matches Err(msg)
                && msg@ == train_rows_message(rows as nat, k as nat)),
            res is Ok <==> training_dim == self.dim && k == self.inverted_lists@.len() && rows >= k,
    {
        if training_dim != self.dim {
            proof {
                reveal_strlit("");
            }
            return Err(
                framed2(
                    "IVFPQIndex::train: training_data dimension ",
                    training_dim as u64,
                    " != index dimension ",
                    self.dim as u64,
                    "",
                ),
            );
        }
        if k != self.inverted_lists.len() {
            return Err(
                framed2(
                    "IVFPQIndex::train: kmeans_config.k (",
                    k as u64,
                    ") != num_clusters (",
                    self.inverted_lists.len() as u64,
                    ")",
                ),
            );
        }
        if rows < k {
            proof {
                reveal_strlit("");
            }
            return Err(
                framed2("IVFPQIndex::train: insufficient training vectors (", rows as u64, ") for k=", k as u64, ""),
            );
        }
        Ok(())
    }

    /// Check that a query of `query_len` coordinates can be searched: the
    /// index must be trained and the dimension must match.
    pub fn check_search(&self, query_len: usize) -> (res: Result<(), String>)
        ensures
            !self.is_trained ==> (res matches Err(msg) && msg@ == untrained_search_message()),
            self.is_trained && query_len != self.dim ==> (res matches Err(msg) && msg@ == search_dim_message(
                query_len as nat,
                self.dim as nat,
            )),
            res is Ok <==> self.is_trained && query_len == self.dim,
    {
        if !self.is_trained {
            return Err(String::from_str("IVFPQIndex must be trained before searching"));
        }
        if query_len != self.dim {
            proof {
                reveal_strlit("");
            }
            return Err(
                framed2(
                    "IVFPQIndex::search: query dimension ",
                    query_len as u64,
                    " != index dimension ",
                    self.dim as u64,
                    "",
                ),
            );
        }
        Ok(())
    }

    /// Check that a batch of queries of dimension `queries_dim` can be
    /// searched: the index must be trained and the dimension must match.
    pub fn check_search_batch(&self, queries_dim: usize) -> (res: Result<(), String>)
        ensures
            !self.is_trained ==> (res matches Err(msg) && msg@ == untrained_search_message()),
            self.is_trained && queries_dim != self.dim ==> (res matches Err(msg) && msg@
                == search_batch_dim_message(queries_dim as nat, self.dim as nat)),
            res is Ok <==> self.is_trained && queries_dim == self.dim,
    {
        if !self.is_trained {
            return Err(String::from_str("IVFPQIndex must be trained before searching"));
        }
        if queries_dim != self.dim {
            proof {
                reveal_strlit("");
            }
            return Err(
                framed2(
                    "IVFPQIndex::search_batch: queries dim ",
                    queries_dim as u64,
                    " != index dim ",
                    self.dim as u64,
                    "",
                ),
            );
        }
        Ok(())
    }

    /// Store the code of a vector in the list of its nearest centroid.
    pub fn insert_code(&mut self, id: u64, cluster: usize, code: Vec<u8>)
        requires
            old(self).wf(),
            old(self).is_trained,
            cluster < old(self).inverted_lists@.len(),
            code@.len() == old(self).pq_config.m,
        ensures
            final(self).wf(),
            final(self).dim == old(self).dim,
            final(self).metric == old(self).metric,
            final(self).is_trained == old(self).is_trained,
            final(self).pq_config == old(self).pq_config,
            final(self).centroids == old(self).centroids,
            final(self).inverted_lists@.len() == old(self).inverted_lists@.len(),
            code_lists_view(final(self).inverted_lists@) == code_lists_view(old(self).inverted_lists@).update(
                cluster as int,
                code_lists_view(old(self).inverted_lists@)[cluster as int].push((id, code@)),
            ),
    {
        let ghost before = self.inverted_lists@;
        let mut list = self.inverted_lists.remove(cluster);
        let ghost l0 = list@;
        list.push((id, code));
        self.inverted_lists.insert(cluster, list);
        proof {
            assert forall|c: int| 0 <= c < before.len() && c != cluster implies #[trigger] self.inverted_lists@[c]
                == before[c] by {
                if c < cluster {
                    assert(self.inverted_lists@[c] == before[c]);
                } else {
                    assert(self.inverted_lists@[c] == before[c]);
                }
            }
            assert(entries_view(self.inverted_lists@[cluster as int]@) =~= entries_view(l0).push(
                (id, code@),
            ));
            assert(code_lists_view(self.inverted_lists@) =~= code_lists_view(before).update(
                cluster as int,
                code_lists_view(before)[cluster as int].push((id, code@)),
            ));
            assert forall|c: int, j: int|
                0 <= c < self.inverted_lists@.len() && 0 <= j < self.inverted_lists@[c]@.len() implies (
                #[trigger] self.inverted_lists@[c]@[j]).1@.len() == self.pq_config.m by {
                if c != cluster {
                    assert(self.inverted_lists@[c] == before[c]);
                } else if j < l0.len() {
                    assert(self.inverted_lists@[c]@[j] == l0[j]);
                }
            }
        }
    }

    /// The bytes held by the index: one byte per subvector of each stored
    /// code, four per coordinate of the coarse centroids, and four per
    /// coordinate of the codebooks once trained.
    pub open spec fn footprint(&self) -> int {
        entries_total(code_lists_view(self.inverted_lists@)) * self.pq_config.m
            + self.centroids.num_vectors * self.dim * 4
            + match self.pq_codebooks {
                Some(cb) => cb.m * cb.k_per_subvector * cb.sub_dim * 4,
                None => 0,
            }
    }

    /// The memory footprint of the index in bytes (see `footprint`).
    pub fn memory_footprint_bytes(&self) -> (n: usize)
        requires
            self.wf(),
            self.footprint() <= usize::MAX,
        ensures
            n == self.footprint(),
    {
        let ghost total = entries_total(code_lists_view(self.inverted_lists@));
        let m = self.pq_config.m;
        let rows = self.centroids.num_vectors;
        let dim = self.dim;
        let ghost books: int = match &self.pq_codebooks {
            Some(cb) => cb.m * cb.k_per_subvector * cb.sub_dim * 4,
            None => 0,
        };
        proof {
            match &self.pq_codebooks {
                Some(cb) => {
                    let (a, b, c) = (cb.m as int, cb.k_per_subvector as int, cb.sub_dim as int);
                    assert(0 <= a * b * c * 4) by (nonlinear_arith)
                        requires
                            0 <= a && 0 <= b && 0 <= c,
                    ;
                },
                None => {},
            }
            assert(0 <= rows * dim && rows * dim <= rows * dim * 4) by (nonlinear_arith);
            assert(total <= total * m && 0 <= total * m) by (nonlinear_arith)
                requires
                    m >= 1,
                    total >= 0,
            ;
        }
        let stored = self.len();
        let code_bytes = stored * m;
        let centroid_bytes = rows * dim * 4;
        let book_bytes: usize = match &self.pq_codebooks {
            Some(cb) => {
                let (a, b, c) = (cb.m, cb.k_per_subvector, cb.sub_dim);
                proof {
                    let (d, q) = (self.dim as int, self.pq_config.m as int);
                    assert(d / q >= 1) by (nonlinear_arith)
                        requires
                            d > 0,
                            q > 0,
                            d % q == 0,
                    {
                        vstd::arithmetic::div_mod::lemma_fundamental_div_mod(d, q);
                    }
                    assert(0 <= a * b && a * b <= a * b * c && 0 <= a * b * c && a * b * c <= a * b * c * 4)
                        by (nonlinear_arith)
                        requires
                            c >= 1,
                    ;
                }
                a * b * c * 4
            },
            None => 0,
        };
        code_bytes + centroid_bytes + book_bytes
    }

    /// Install trained centroids and codebooks and mark the index trained.
    pub fn set_trained(&mut self, centroids: VectorBatch, codebooks: PQCodebooks)
        requires
            old(self).wf(),
            centroids.wf(),
            centroids.dim == old(self).dim,
            centroids.num_vectors == old(self).inverted_lists@.len(),
            codebooks.wf(),
            codebooks.m == old(self).pq_config.m,
            codebooks.k_per_subvector == old(self).pq_config.k_per_subvector,
            codebooks.sub_dim == old(self).dim / old(self).pq_config.m,
        ensures
            final(self).wf(),
            final(self).is_trained,
            final(self).centroids == centroids,
            final(self).inverted_lists@ == old(self).inverted_lists@,
            final(self).dim == old(self).dim,
            final(self).pq_config == old(self).pq_config,
            final(self).pq_codebooks == Some(codebooks),
            final(self).metric == old(self).metric,
            final(self)@ == (IvfPqView {
                centroids: centroids.data@,
                num_centroids: centroids.num_vectors as nat,
                books: Some(books_view(codebooks.codebooks@)),
                is_trained: true,
                ..old(self)@
            }),
    {
        self.centroids = centroids;
        self.pq_codebooks = Some(codebooks);
        self.is_trained = true;
    }
}


/// What codebook training refuses, in the order it checks: no subvectors,
/// no centroids per subvector, more than 256 of them, a dimension that the
/// subvectors do not divide, fewer training rows than centroids.
pub open spec fn pq_training_error(dim: nat, rows: nat, config: PQConfig) -> Option<Seq<char>> {
    if config.m == 0 {
        Some("PQConfig::m must be greater than 0"@)
    } else if config.k_per_subvector == 0 {
        Some("PQConfig::k_per_subvector must be greater than 0"@)
    } else if config.k_per_subvector > 256 {
        Some(
            "PQConfig::k_per_subvector ("@ + decimal(config.k_per_subvector as nat)
                + ") cannot exceed 256 for 1-byte encoding"@,
        )
    } else if dim % (config.m as nat) != 0 {
        Some(
            "dimension "@ + decimal(dim) + " is not evenly divisible by m="@ + decimal(config.m as nat)
                + " subvectors"@,
        )
    } else if rows < config.k_per_subvector {
        Some(
            "insufficient training vectors ("@ + decimal(rows) + ") for k_per_subvector="@ + decimal(
                config.k_per_subvector as nat,
            ),
        )
    } else {
        None
    }
}

/// Check that codebooks can be trained on `rows` vectors of dimension
/// `dim` with `config`.
pub fn check_pq_training(dim: usize, rows: usize, config: &PQConfig) -> (res: Result<(), String>)
    ensures
        match pq_training_error(dim as nat, rows as nat, *config) {
            None => res is Ok,
            Some(t) => res matches Err(msg) && msg@ == t,
        },
{
    proof {
        reveal_strlit("");
    }
    if config.m == 0 {
        return Err(String::from_str("PQConfig::m must be greater than 0"));
    }
    if config.k_per_subvector == 0 {
        return Err(String::from_str("PQConfig::k_per_subvector must be greater than 0"));
    }
    if config.k_per_subvector > 256 {
        return Err(
            framed(
                "PQConfig::k_per_subvector (",
                config.k_per_subvector as u64,
                ") cannot exceed 256 for 1-byte encoding",
            ),
        );
    }
    if dim % config.m != 0 {
        return Err(framed2("dimension ", dim as u64, " is not evenly divisible by m=", config.m as u64, " subvectors"));
    }
    if rows < config.k_per_subvector {
        return Err(
            framed2(
                "insufficient training vectors (",
                rows as u64,
                ") for k_per_subvector=",
                config.k_per_subvector as u64,
                "",
            ),
        );
    }
    Ok(())
}

} // verus!
