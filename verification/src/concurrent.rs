//! A flat index shared between threads behind a reader-writer lock.
//!
//! Readers proceed together; a writer holds the lock alone and validates its
//! input before touching the index, so a refused insertion leaves the index
//! as it was. The lock's invariant is that the index inside is well formed,
//! with the dimension and metric the shared index was created with, and
//! still holds first, in order, what it was created with.

use vstd::prelude::*;
use vstd::rwlock::{ReadHandle, RwLock, RwLockPredicate};
use vstd::string::*;
use crate::batch::VectorBatch;
use crate::flat_index::{BatchRejection, FlatIndex, FlatIndexView, position_of};
use crate::metric::Metric;
use crate::text::{decimal, framed, framed2};

verus! {

/// `v` holds first, in order, the IDs and coordinates of `base`: nothing
/// of `base` was removed or changed, only appended to.
pub open spec fn extends(v: FlatIndexView, base: FlatIndexView) -> bool {
    &&& base.ids.len() <= v.ids.len()
    &&& v.ids.take(base.ids.len() as int) == base.ids
    &&& base.data.len() <= v.data.len()
    &&& v.data.take(base.data.len() as int) == base.data
}

/// Appending to an index that extends `base` keeps it so.
proof fn lemma_extends_append(v: FlatIndexView, w: FlatIndexView, base: FlatIndexView)
    requires
        extends(v, base),
        v.ids.len() <= w.ids.len(),
        w.ids.take(v.ids.len() as int) == v.ids,
        v.data.len() <= w.data.len(),
        w.data.take(v.data.len() as int) == v.data,
    ensures
        extends(w, base),
{
    assert(w.ids.take(base.ids.len() as int) =~= v.ids.take(base.ids.len() as int)) by {
        assert forall|i: int| 0 <= i < base.ids.len() implies w.ids[i] == v.ids[i] by {
            assert(w.ids.take(v.ids.len() as int)[i] == w.ids[i]);
        }
    }
    assert(w.data.take(base.data.len() as int) =~= v.data.take(base.data.len() as int)) by {
        assert forall|i: int| 0 <= i < base.data.len() implies w.data[i] == v.data[i] by {
            assert(w.data.take(v.data.len() as int)[i] == w.data[i]);
        }
    }
}

/// What the lock of a shared flat index keeps true of the index inside it:
/// it is well formed, has the shared index's dimension and metric, and
/// still holds first what the shared index was created with.
pub struct FlatLockInv {
    pub dim: usize,
    pub metric: Metric,
    pub base: Ghost<FlatIndexView>,
}

impl RwLockPredicate<FlatIndex> for FlatLockInv {
    open spec fn inv(self, v: FlatIndex) -> bool {
        &&& v.wf()
        &&& v.batch.dim == self.dim
        &&& v.metric == self.metric
        &&& extends(v@, self.base@)
    }
}

/// The message for a vector of another dimension.
pub open spec fn add_dim_message(expected: nat, got: nat) -> Seq<char> {
    "ConcurrentFlatIndex::add: vector dimension mismatch: expected "@ + decimal(expected) + ", got "@
        + decimal(got)
}

/// The message for an ID the index already holds.
pub open spec fn add_duplicate_message(id: u64) -> Seq<char> {
    "ConcurrentFlatIndex::add: duplicate id "@ + decimal(id as nat) + ": already exists in index"@
}

/// The message for a batch whose ID and vector counts differ.
pub open spec fn batch_count_message(ids: nat, vectors: nat) -> Seq<char> {
    "ConcurrentFlatIndex::add_batch: ids count ("@ + decimal(ids) + ") != vectors count ("@ + decimal(vectors)
        + ")"@
}

/// The message for a batch of another dimension.
pub open spec fn batch_dim_message(vectors: nat, index: nat) -> Seq<char> {
    "ConcurrentFlatIndex::add_batch: vectors dimension ("@ + decimal(vectors) + ") != index dimension ("@
        + decimal(index) + ")"@
}

/// The message for an ID that occurs twice in a batch.
pub open spec fn batch_repeat_message(id: u64) -> Seq<char> {
    "ConcurrentFlatIndex::add_batch: duplicate id "@ + decimal(id as nat) + " within incoming batch"@
}

/// The message for a batch ID the index already holds.
pub open spec fn batch_clash_message(id: u64) -> Seq<char> {
    "ConcurrentFlatIndex::add_batch: duplicate id "@ + decimal(id as nat) + " already in index"@
}

/// The message for an index that cannot count one more vector.
pub open spec fn full_message() -> Seq<char> {
    "ConcurrentFlatIndex: index is full"@
}

/// What adding `id` with vector `x` to an index in state `v`, of dimension
/// `dim`, gives: the state after, or the text of the refusal (another
/// dimension, an ID the index holds, or no room to count one more vector).
pub open spec fn add_outcome(v: FlatIndexView, dim: nat, id: u64, x: Seq<u32>) -> Result<FlatIndexView, Seq<char>> {
    if x.len() != dim {
        Err(add_dim_message(dim, x.len()))
    } else if v.ids.contains(id) {
        Err(add_duplicate_message(id))
    } else if v.num_vectors >= usize::MAX {
        Err(full_message())
    } else {
        Ok(v.with_vector(id, x))
    }
}

/// A batch of `rows` rows of dimension `row_dim` under `ids` may be added
/// to an index in state `v` of dimension `dim`: one ID per row, the index's
/// dimension, no ID twice in the batch, none that the index holds, and room
/// to count them.
pub open spec fn batch_accepted(v: FlatIndexView, dim: nat, ids: Seq<u64>, rows: nat, row_dim: nat) -> bool {
    &&& ids.len() == rows
    &&& row_dim == dim
    &&& ids.no_duplicates()
    &&& forall|i: int| 0 <= i < ids.len() ==> !v.ids.contains(#[trigger] ids[i])
    &&& v.num_vectors + rows <= usize::MAX
}

/// The state after a batch is appended.
pub open spec fn with_batch(v: FlatIndexView, ids: Seq<u64>, data: Seq<u32>, rows: nat) -> FlatIndexView {
    FlatIndexView { ids: v.ids + ids, data: v.data + data, num_vectors: v.num_vectors + rows, ..v }
}

/// Adding one vector succeeds exactly when it has the index's dimension,
/// its ID is not held and there is room; then the ID is held last, maps to
/// the vector, and every other ID keeps its vector.
pub proof fn lemma_add_appends(v: FlatIndexView, dim: nat, id: u64, x: Seq<u32>, other: u64)
    requires
        v.wf(),
        v.dim == dim,
    ensures
        add_outcome(v, dim, id, x) is Ok <==> (x.len() == dim && !v.ids.contains(id) && v.num_vectors < usize::MAX),
        add_outcome(v, dim, id, x) matches Ok(w) ==> {
            &&& w.wf()
            &&& w.ids == v.ids.push(id)
            &&& w.vector_of(id) == Some(x)
            &&& other != id ==> w.vector_of(other) == v.vector_of(other)
        },
{
    if x.len() == dim && !v.ids.contains(id) {
        crate::flat_index::lemma_read_after_write(v, id, x, other);
    }
}

/// A batch is accepted exactly under [`batch_accepted`]; the index then
/// holds exactly the IDs it held and those of the batch, with no ID twice.
pub proof fn lemma_batch_appends(v: FlatIndexView, ids: Seq<u64>, data: Seq<u32>, rows: nat)
    requires
        v.wf(),
        batch_accepted(v, v.dim, ids, rows, v.dim),
        data.len() == v.dim * rows,
    ensures
        with_batch(v, ids, data, rows).wf(),
        forall|u: u64| #[trigger] with_batch(v, ids, data, rows).ids.contains(u) <==> (v.ids.contains(u) || ids.contains(u)),
{
    let w = with_batch(v, ids, data, rows);
    let n = v.ids.len() as int;
    assert(w.data.len() == w.dim * w.num_vectors) by (nonlinear_arith)
        requires
            w.data.len() == v.data.len() + data.len(),
            v.data.len() == v.dim * v.num_vectors,
            data.len() == v.dim * rows,
            w.num_vectors == v.num_vectors + rows,
            w.dim == v.dim,
    ;
    assert forall|a: int, b: int| 0 <= a < w.ids.len() && 0 <= b < w.ids.len() && a != b implies w.ids[a] != w.ids[b] by {
        if a < n && b >= n {
            assert(w.ids[b] == ids[b - n]);
            assert(v.ids.contains(w.ids[a]));
        } else if a >= n && b < n {
            assert(w.ids[a] == ids[a - n]);
            assert(v.ids.contains(w.ids[b]));
        } else if a >= n && b >= n {
            assert(w.ids[a] == ids[a - n]);
            assert(w.ids[b] == ids[b - n]);
        }
    }
    assert forall|u: u64| #[trigger] w.ids.contains(u) <==> (v.ids.contains(u) || ids.contains(u)) by {
        if w.ids.contains(u) {
            let q = choose|q: int| 0 <= q < w.ids.len() && w.ids[q] == u;
            if q < n {
                assert(v.ids[q] == u);
            } else {
                assert(ids[q - n] == u);
            }
        }
        if v.ids.contains(u) {
            let q = choose|q: int| 0 <= q < v.ids.len() && v.ids[q] == u;
            assert(w.ids[q] == u);
        }
        if ids.contains(u) {
            let q = choose|q: int| 0 <= q < ids.len() && ids[q] == u;
            assert(w.ids[n + q] == u);
        }
    }
}

/// A flat index that threads share: searches run under a shared lock,
/// insertions under an exclusive one.
pub struct ConcurrentFlatIndex {
    inner: RwLock<FlatIndex, FlatLockInv>,
    dim: usize,
    metric: Metric,
    base: Ghost<FlatIndexView>,
}

impl ConcurrentFlatIndex {
    #[verifier::type_invariant]
    spec fn lock_matches(self) -> bool {
        &&& self.inner.pred() == FlatLockInv { dim: self.dim, metric: self.metric, base: self.base }
        &&& self.base@.wf()
    }

    /// What the index held when it was created.
    pub closed spec fn spec_base(self) -> FlatIndexView {
        self.base@
    }

    /// The states the index inside the lock can be in: well formed, with
    /// the shared index's dimension and metric, holding first, in order,
    /// what it was created with (the index only ever grows).
    pub open spec fn admits(self, v: FlatIndexView) -> bool {
        &&& v.wf()
        &&& v.dim == self.spec_dim()
        &&& v.metric == self.spec_metric()
        &&& extends(v, self.spec_base())
    }

    /// The dimension the index was created with.
    pub closed spec fn spec_dim(self) -> usize {
        self.dim
    }

    /// The metric the index was created with.
    pub closed spec fn spec_metric(self) -> Metric {
        self.metric
    }

    /// An empty shared index for vectors of dimension `dim`.
    pub fn new(dim: usize, metric: Metric) -> (s: Self)
        ensures
            s.spec_dim() == dim,
            s.spec_metric() == metric,
            s.spec_base().ids == Seq::<u64>::empty(),
            s.spec_base().data == Seq::<u32>::empty(),
    {
        let index = FlatIndex::new(dim, metric);
        let ghost base = index@;
        proof {
            assert(index@.ids.take(0) =~= base.ids);
            assert(index@.data.take(0) =~= base.data);
        }
        let inner = RwLock::new(index, Ghost(FlatLockInv { dim, metric, base: Ghost(base) }));
        ConcurrentFlatIndex { inner, dim, metric, base: Ghost(base) }
    }

    /// Share an existing index.
    pub fn from_flat_index(index: FlatIndex) -> (s: Self)
        requires
            index.wf(),
        ensures
            s.spec_dim() == index.batch.dim,
            s.spec_metric() == index.metric,
            s.spec_base() == index@,
    {
        let dim = index.dim();
        let metric = index.metric;
        let ghost base = index@;
        proof {
            assert(index@.ids.take(base.ids.len() as int) =~= base.ids);
            assert(index@.data.take(base.data.len() as int) =~= base.data);
        }
        let inner = RwLock::new(index, Ghost(FlatLockInv { dim, metric, base: Ghost(base) }));
        ConcurrentFlatIndex { inner, dim, metric, base: Ghost(base) }
    }

    /// Insert one vector under the exclusive lock.
    ///
    /// A vector of another dimension is refused whatever the index holds;
    /// an ID the index holds when the lock is taken is refused. Which IDs
    /// that is depends on the other writers, so the contract states what
    /// holds of every outcome.
    pub fn add(&self, id: u64, vector: &[u32]) -> (res: Result<(), String>)
        ensures
            vector@.len() != self.spec_dim() ==> (res matches Err(msg) && msg@ == add_dim_message(
                self.spec_dim() as nat,
                vector@.len(),
            )),
            res is Ok ==> vector@.len() == self.spec_dim(),
            res matches Err(msg) ==> msg@ == add_dim_message(self.spec_dim() as nat, vector@.len())
                || msg@ == add_duplicate_message(id) || msg@ == full_message(),
            exists|v: FlatIndexView|
                #[trigger] self.admits(v) && match add_outcome(v, self.spec_dim() as nat, id, vector@) {
                    Ok(w) => res is Ok && self.admits(w),
                    Err(t) => res matches Err(msg) && msg@ == t,
                },
    {
        proof {
            use_type_invariant(self);
        }
        let (mut index, handle) = self.inner.acquire_write();
        let ghost v0 = index@;
        proof {
            assert(self.admits(v0));
        }
        if vector.len() != index.dim() {
            handle.release_write(index);
            proof {
                reveal_strlit("");
            }
            return Err(
                framed2(
                    "ConcurrentFlatIndex::add: vector dimension mismatch: expected ",
                    self.dim as u64,
                    ", got ",
                    vector.len() as u64,
                    "",
                ),
            );
        }
        if position_of(index.ids.as_slice(), id).is_some() {
            handle.release_write(index);
            return Err(framed("ConcurrentFlatIndex::add: duplicate id ", id, ": already exists in index"));
        }
        if index.len() == usize::MAX {
            handle.release_write(index);
            return Err(String::from_str("ConcurrentFlatIndex: index is full"));
        }
        let ghost before = index@;
        index.add(id, vector);
        proof {
            assert(index@.ids.take(before.ids.len() as int) =~= before.ids);
            assert(index@.data.take(before.data.len() as int) =~= before.data);
            lemma_extends_append(before, index@, self.base@);
        }
        handle.release_write(index);
        Ok(())
    }

    /// Insert a batch under the exclusive lock: the counts are checked,
    /// then the dimension, then each incoming ID in order (a repeat within
    /// the batch, then an ID the index holds).
    pub fn add_batch(&self, ids: &[u64], vectors: &VectorBatch) -> (res: Result<(), String>)
        requires
            vectors.wf(),
        ensures
            ids@.len() != vectors.num_vectors ==> (res matches Err(msg) && msg@ == batch_count_message(
                ids@.len(),
                vectors.num_vectors as nat,
            )),
            ids@.len() == vectors.num_vectors && vectors.dim != self.spec_dim() ==> (res matches Err(msg) && msg@
                == batch_dim_message(vectors.dim as nat, self.spec_dim() as nat)),
            !ids@.no_duplicates() ==> res is Err,
            res is Ok ==> ids@.len() == vectors.num_vectors && vectors.dim == self.spec_dim()
                && ids@.no_duplicates(),
            res matches Err(msg) ==> {
                ||| msg@ == batch_count_message(ids@.len(), vectors.num_vectors as nat)
                ||| msg@ == batch_dim_message(vectors.dim as nat, self.spec_dim() as nat)
                ||| exists|i: int| 0 <= i < ids@.len() && msg@ == batch_repeat_message(#[trigger] ids@[i])
                ||| exists|i: int| 0 <= i < ids@.len() && msg@ == batch_clash_message(#[trigger] ids@[i])
                ||| msg@ == full_message()
            },
            exists|v: FlatIndexView|
                #[trigger] self.admits(v) && (res is Ok <==> batch_accepted(
                    v,
                    self.spec_dim() as nat,
                    ids@,
                    vectors.num_vectors as nat,
                    vectors.dim as nat,
                )) && (res is Ok ==> self.admits(with_batch(v, ids@, vectors.data@, vectors.num_vectors as nat))),
    {
        proof {
            use_type_invariant(self);
        }
        let (mut index, handle) = self.inner.acquire_write();
        let ghost v0 = index@;
        proof {
            assert(self.admits(v0));
        }
        proof {
            assert(ids@.len() == ids.len());
        }
        match index.check_insert_batch(ids, vectors) {
            Err(BatchRejection::CountMismatch { ids: n, vectors: m }) => {
                handle.release_write(index);
                Err(
                    framed2(
                        "ConcurrentFlatIndex::add_batch: ids count (",
                        n as u64,
                        ") != vectors count (",
                        m as u64,
                        ")",
                    ),
                )
            },
            Err(BatchRejection::DimensionMismatch { vectors: d, index: e }) => {
                handle.release_write(index);
                Err(
                    framed2(
                        "ConcurrentFlatIndex::add_batch: vectors dimension (",
                        d as u64,
                        ") != index dimension (",
                        e as u64,
                        ")",
                    ),
                )
            },
            Err(BatchRejection::DuplicateInBatch(id)) => {
                handle.release_write(index);
                proof {
                    let (i, j) = choose|i: int, j: int| 0 <= j < i < ids@.len() && ids@[i] == id && ids@[j] == id;
                    assert(ids@[i] == id);
                }
                Err(framed("ConcurrentFlatIndex::add_batch: duplicate id ", id, " within incoming batch"))
            },
            Err(BatchRejection::DuplicateInIndex(id)) => {
                handle.release_write(index);
                proof {
                    let i = choose|i: int| 0 <= i < ids@.len() && ids@[i] == id;
                    assert(ids@[i] == id);
                }
                Err(framed("ConcurrentFlatIndex::add_batch: duplicate id ", id, " already in index"))
            },
            Ok(()) => {
                if index.len() > usize::MAX - vectors.num_vectors {
                    handle.release_write(index);
                    return Err(String::from_str("ConcurrentFlatIndex: index is full"));
                }
                let ghost before = index@;
                index.add_batch(ids, vectors);
                proof {
                    assert(index@ == with_batch(v0, ids@, vectors.data@, vectors.num_vectors as nat));
                    assert(index@.ids.take(before.ids.len() as int) =~= before.ids);
                    assert(index@.data.take(before.data.len() as int) =~= before.data);
                    lemma_extends_append(before, index@, self.base@);
                }
                handle.release_write(index);
                Ok(())
            },
        }
    }

    /// Take the shared lock; the handle lends the index to a reader until
    /// it is released.
    pub fn read(&self) -> (h: ReadHandle<'_, FlatIndex, FlatLockInv>)
        ensures
            h.view().wf(),
            h.view().batch.dim == self.spec_dim(),
            h.view().metric == self.spec_metric(),
            self.admits(h.view()@),
    {
        proof {
            use_type_invariant(self);
        }
        self.inner.acquire_read()
    }

    /// The number of vectors stored when the shared lock is taken: the
    /// count of a state the index can be in, so never fewer than it was
    /// created with (other writers may add more at any time).
    pub fn len(&self) -> (n: usize)
        ensures
            exists|v: FlatIndexView| #[trigger] self.admits(v) && n == v.num_vectors,
            n >= self.spec_base().num_vectors,
    {
        proof {
            use_type_invariant(self);
        }
        let h = self.read();
        let n = h.borrow().len();
        proof {
            let v = h.view()@;
            assert(self.admits(v));
            assert(v.ids.take(self.spec_base().ids.len() as int).len() == self.spec_base().ids.len());
        }
        h.release_read();
        n
    }

    /// Whether no vector is stored when the shared lock is taken; never so
    /// for an index created with vectors.
    pub fn is_empty(&self) -> (e: bool)
        ensures
            exists|v: FlatIndexView| #[trigger] self.admits(v) && e == (v.num_vectors == 0),
            self.spec_base().num_vectors > 0 ==> !e,
    {
        self.len() == 0
    }

    /// The dimension of the stored vectors.
    pub fn dim(&self) -> (d: usize)
        ensures
            d == self.spec_dim(),
    {
        self.dim
    }

    /// The metric searches use.
    pub fn metric(&self) -> (m: Metric)
        ensures
            m == self.spec_metric(),
    {
        self.metric
    }
}

} // verus!
