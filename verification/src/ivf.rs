//! Inverted File (IVF) index: one flat index per Voronoi cell.
//!
//! Which cell a vector belongs to is decided by comparing it with the
//! trained centroids; the operations here take that decision as an argument
//! and keep the cells well formed.

use vstd::prelude::*;
use crate::batch::VectorBatch;
use crate::flat_index::{FlatIndex, FlatIndexView};
use crate::metric::Metric;

verus! {

/// An IVF index.
#[derive(Debug, Clone)]
pub struct IVFIndex {
    /// Centroid coordinates, one row per cluster once trained (empty before).
    pub centroids: VectorBatch,
    /// `inverted_lists[c]` holds the vectors assigned to centroid `c`.
    pub inverted_lists: Vec<FlatIndex>,
    /// Dimensionality of the vectors.
    pub dim: usize,
    /// Metric used within the inverted lists.
    pub metric: Metric,
    /// Whether the centroids have been trained.
    pub is_trained: bool,
}

/// The abstract content of an IVF index.
pub ghost struct IvfView {
    pub centroids: Seq<u32>,
    pub num_centroids: nat,
    pub lists: Seq<FlatIndexView>,
    pub dim: nat,
    pub metric: Metric,
    pub is_trained: bool,
}

/// The views of a sequence of flat indexes.
pub open spec fn flat_views(ls: Seq<FlatIndex>) -> Seq<FlatIndexView> {
    Seq::new(ls.len(), |i: int| ls[i]@)
}

impl View for IVFIndex {
    type V = IvfView;

    open spec fn view(&self) -> IvfView {
        IvfView {
            centroids: self.centroids.data@,
            num_centroids: self.centroids.num_vectors as nat,
            lists: flat_views(self.inverted_lists@),
            dim: self.dim as nat,
            metric: self.metric,
            is_trained: self.is_trained,
        }
    }
}

/// The number of vectors across a sequence of flat indexes.
pub open spec fn lists_total(ls: Seq<FlatIndexView>) -> nat
    decreases ls.len(),
{
    if ls.len() == 0 {
        0
    } else {
        lists_total(ls.drop_last()) + ls.last().num_vectors
    }
}

/// The vectors of a prefix of the lists are no more than those of all.
pub proof fn lemma_lists_total_prefix(ls: Seq<FlatIndexView>, i: int)
    requires
        0 <= i <= ls.len(),
    ensures
        lists_total(ls.take(i)) <= lists_total(ls),
    decreases ls.len() - i,
{
    if i < ls.len() {
        lemma_lists_total_prefix(ls, i + 1);
        assert(ls.take(i + 1).drop_last() =~= ls.take(i));
    } else {
        assert(ls.take(i) =~= ls);
    }
}

/// Replacing list `c` changes the total by the difference of its sizes.
pub proof fn lemma_lists_total_update(ls: Seq<FlatIndexView>, c: int, x: FlatIndexView)
    requires
        0 <= c < ls.len(),
    ensures
        lists_total(ls.update(c, x)) + ls[c].num_vectors == lists_total(ls) + x.num_vectors,
    decreases ls.len(),
{
    if c < ls.len() - 1 {
        lemma_lists_total_update(ls.drop_last(), c, x);
        assert(ls.update(c, x).drop_last() =~= ls.drop_last().update(c, x));
    } else {
        assert(ls.update(c, x).drop_last() =~= ls.drop_last());
    }
}

/// Why an insertion into an IVF index is refused.
#[derive(Debug, Clone, Copy, PartialEq, Eq, Structural)]
pub enum IvfRejection {
    /// Vectors can only be routed once the centroids are trained.
    NotTrained,
    /// The number of IDs differs from the number of vectors.
    CountMismatch { ids: usize, vectors: usize },
}

impl IVFIndex {
    /// Every list is a well-formed flat index of the index's dimension and
    /// metric; a trained index has one centroid per list, an untrained one
    /// none.
    pub open spec fn wf(&self) -> bool {
        &&& self.centroids.wf()
        &&& self.centroids.dim == self.dim
        &&& (self.is_trained ==> self.centroids.num_vectors == self.inverted_lists@.len())
        &&& (!self.is_trained ==> self.centroids.num_vectors == 0)
        &&& forall|c: int|
            0 <= c < self.inverted_lists@.len() ==> {
                &&& (#[trigger] self.inverted_lists@[c]).wf()
                &&& self.inverted_lists@[c].batch.dim == self.dim
                &&& self.inverted_lists@[c].metric == self.metric
            }
    }

    /// Create an untrained index with `num_clusters` empty lists.
    pub fn new(dim: usize, num_clusters: usize, metric: Metric) -> (index: Self)
        ensures
            index.wf(),
            !index.is_trained,
            index.dim == dim,
            index.metric == metric,
            index.centroids.num_vectors == 0,
            index.inverted_lists@.len() == num_clusters,
            forall|c: int| 0 <= c < num_clusters ==> (#[trigger] index.inverted_lists@[c]).ids@.len() == 0,
    {
        let mut lists: Vec<FlatIndex> = Vec::new();
        let mut c: usize = 0;
        while c < num_clusters
            invariant
                c <= num_clusters,
                lists@.len() == c,
                forall|t: int|
                    0 <= t < c ==> {
                        &&& (#[trigger] lists@[t]).wf()
                        &&& lists@[t].batch.dim == dim
                        &&& lists@[t].metric == metric
                        &&& lists@[t].ids@.len() == 0
                    },
            decreases num_clusters - c,
        {
            lists.push(FlatIndex::new(dim, metric));
            c = c + 1;
        }
        IVFIndex { centroids: VectorBatch::new(dim), inverted_lists: lists, dim, metric, is_trained: false }
    }

    /// Number of clusters.
    pub fn num_clusters(&self) -> (n: usize)
        ensures
            n == self.inverted_lists@.len(),
    {
        self.inverted_lists.len()
    }

    /// Total number of vectors across all lists.
    pub fn len(&self) -> (n: usize)
        requires
            lists_total(self@.lists) <= usize::MAX,
        ensures
            n == lists_total(self@.lists),
    {
        let ghost ls = self@.lists;
        let mut total: usize = 0;
        let mut c: usize = 0;
        while c < self.inverted_lists.len()
            invariant
                ls == self@.lists,
                c <= ls.len(),
                total == lists_total(ls.take(c as int)),
                lists_total(ls) <= usize::MAX,
            decreases ls.len() - c,
        {
            proof {
                assert(ls.take(c as int + 1).drop_last() =~= ls.take(c as int));
                lemma_lists_total_prefix(ls, c as int + 1);
            }
            total = total + self.inverted_lists[c].len();
            c = c + 1;
        }
        proof {
            assert(ls.take(c as int) =~= ls);
        }
        total
    }

    /// Whether no list holds a vector.
    pub fn is_empty(&self) -> (b: bool)
        requires
            lists_total(self@.lists) <= usize::MAX,
        ensures
            b == (lists_total(self@.lists) == 0),
    {
        self.len() == 0
    }

    /// Number of vectors in each list, in centroid order.
    pub fn cluster_sizes(&self) -> (sizes: Vec<usize>)
        ensures
            sizes@.len() == self.inverted_lists@.len(),
            forall|c: int|
                0 <= c < sizes@.len() ==> sizes@[c] == (#[trigger] self.inverted_lists@[c]).batch.num_vectors,
    {
        let mut sizes: Vec<usize> = Vec::new();
        let mut c: usize = 0;
        while c < self.inverted_lists.len()
            invariant
                c <= self.inverted_lists@.len(),
                sizes@.len() == c,
                forall|t: int| 0 <= t < c ==> sizes@[t] == (#[trigger] self.inverted_lists@[t]).batch.num_vectors,
            decreases self.inverted_lists@.len() - c,
        {
            sizes.push(self.inverted_lists[c].len());
            c = c + 1;
        }
        sizes
    }

    /// Total number of vectors in the selected clusters.
    pub fn coverage(&self, selected: &[usize]) -> (n: usize)
        requires
            forall|j: int| 0 <= j < selected@.len() ==> #[trigger] selected@[j] < self.inverted_lists@.len(),
            selected_total(self@.lists, selected@, selected@.len() as int) <= usize::MAX,
        ensures
            n == selected_total(self@.lists, selected@, selected@.len() as int),
    {
        let ghost ls = self@.lists;
        let mut total: usize = 0;
        let mut j: usize = 0;
        while j < selected.len()
            invariant
                ls == self@.lists,
                j <= selected@.len(),
                total == selected_total(ls, selected@, j as int),
                forall|t: int| 0 <= t < selected@.len() ==> #[trigger] selected@[t] < ls.len(),
                selected_total(ls, selected@, selected@.len() as int) <= usize::MAX,
            decreases selected@.len() - j,
        {
            let c = selected[j];
            let k = self.inverted_lists[c].len();
            proof {
                lemma_selected_total_mono(ls, selected@, j as int + 1, selected@.len() as int);
                assert(ls[c as int].num_vectors == k);
            }
            total = total + k;
            j = j + 1;
        }
        total
    }

    /// Vector dimensionality.
    pub fn dim(&self) -> (d: usize)
        ensures
            d == self.dim,
    {
        self.dim
    }

    /// Distance metric.
    pub fn metric(&self) -> (m: Metric)
        ensures
            m == self.metric,
    {
        self.metric
    }

    /// Whether the centroids have been trained.
    pub fn is_trained(&self) -> (t: bool)
        ensures
            t == self.is_trained,
    {
        self.is_trained
    }

    /// Install trained centroids (one row per cluster) and mark the index
    /// trained; the inverted lists are not touched.
    pub fn set_centroids(&mut self, centroids: VectorBatch)
        requires
            old(self).wf(),
            centroids.wf(),
            centroids.dim == old(self).dim,
            centroids.num_vectors == old(self).inverted_lists@.len(),
        ensures
            final(self).wf(),
            final(self).is_trained,
            final(self).centroids == centroids,
            final(self).inverted_lists@ == old(self).inverted_lists@,
            final(self).dim == old(self).dim,
            final(self).metric == old(self).metric,
    {
        self.centroids = centroids;
        self.is_trained = true;
    }

    /// Insert one vector into cluster `cluster`, the cluster whose centroid
    /// is nearest to it.
    ///
    /// Refused, with the index unchanged, while the index is untrained.
    pub fn add(&mut self, id: u64, vector: &[u32], cluster: usize) -> (res: Result<(), IvfRejection>)
        requires
            old(self).wf(),
            vector@.len() == old(self).dim,
            old(self).is_trained ==> cluster < old(self).inverted_lists@.len(),
            old(self).is_trained ==> !old(self).inverted_lists@[cluster as int].ids@.contains(id),
            old(self).is_trained ==> old(self).inverted_lists@[cluster as int].batch.num_vectors < usize::MAX,
        ensures
            final(self).wf(),
            final(self).dim == old(self).dim,
            final(self).metric == old(self).metric,
            final(self).is_trained == old(self).is_trained,
            final(self).centroids == old(self).centroids,
            final(self).inverted_lists@.len() == old(self).inverted_lists@.len(),
            !old(self).is_trained ==> res == Err::<(), IvfRejection>(IvfRejection::NotTrained)
                && final(self).inverted_lists@ == old(self).inverted_lists@,
            old(self).is_trained ==> res is Ok && ({
                &&& final(self).inverted_lists@[cluster as int].ids@ == old(self).inverted_lists@[cluster as int].ids@.push(id)
                &&& final(self).inverted_lists@[cluster as int].batch.data@
                    == old(self).inverted_lists@[cluster as int].batch.data@ + vector@
                &&& forall|c: int|
                    0 <= c < old(self).inverted_lists@.len() && c != cluster ==> #[trigger] final(self).inverted_lists@[c]
                        == old(self).inverted_lists@[c]
            }),
    {
        if !self.is_trained {
            return Err(IvfRejection::NotTrained);
        }
        let ghost before = self.inverted_lists@;
        let mut list = self.inverted_lists.remove(cluster);
        list.add(id, vector);
        self.inverted_lists.insert(cluster, list);
        proof {
            assert forall|c: int| 0 <= c < before.len() && c != cluster implies #[trigger] self.inverted_lists@[c] == before[c] by {
                if c < cluster {
                    assert(self.inverted_lists@[c] == before[c]);
                } else {
                    assert(self.inverted_lists@[c] == before[c]);
                }
            }
        }
        Ok(())
    }

    /// Insert a batch: row `i` with ID `ids[i]` goes to cluster
    /// `clusters[i]`, the cluster whose centroid is nearest to it.
    ///
    /// Refused, with the index unchanged, while the index is untrained, and
    /// then when the numbers of IDs and rows differ.
    pub fn add_batch(&mut self, ids: &[u64], vectors: &VectorBatch, clusters: &[usize]) -> (res: Result<
        (),
        IvfRejection,
    >)
        requires
            old(self).wf(),
            vectors.wf(),
            vectors.dim == old(self).dim,
            old(self).is_trained && ids@.len() == vectors.num_vectors ==> {
                &&& clusters@.len() == ids@.len()
                &&& forall|i: int|
                    0 <= i < clusters@.len() ==> (#[trigger] clusters@[i]) < old(self).inverted_lists@.len()
                &&& forall|i: int|
                    0 <= i < clusters@.len() ==> !old(self).inverted_lists@[clusters@[i] as int].ids@.contains(
                        #[trigger] ids@[i],
                    )
                &&& forall|i: int, j: int|
                    0 <= i < j < ids@.len() && clusters@[i] == clusters@[j] ==> #[trigger] ids@[i]
                        != #[trigger] ids@[j]
                &&& forall|c: int|
                    0 <= c < old(self).inverted_lists@.len() ==> (#[trigger] old(self).inverted_lists@[c]).batch.num_vectors
                        + ids@.len() <= usize::MAX
            },
        ensures
            final(self).wf(),
            final(self).dim == old(self).dim,
            final(self).metric == old(self).metric,
            final(self).is_trained == old(self).is_trained,
            final(self).centroids == old(self).centroids,
            final(self).inverted_lists@.len() == old(self).inverted_lists@.len(),
            !old(self).is_trained ==> res == Err::<(), IvfRejection>(IvfRejection::NotTrained),
            old(self).is_trained && ids@.len() != vectors.num_vectors ==> res == Err::<(), IvfRejection>(
                IvfRejection::CountMismatch { ids: ids@.len() as usize, vectors: vectors.num_vectors },
            ),
            res is Err ==> final(self).inverted_lists@ == old(self).inverted_lists@,
            old(self).is_trained && ids@.len() == vectors.num_vectors ==> res is Ok && forall|c: int|
                0 <= c < old(self).inverted_lists@.len() ==> {
                    &&& (#[trigger] final(self).inverted_lists@[c]).ids@ == old(self).inverted_lists@[c].ids@
                        + routed_ids(ids@, clusters@, c, ids@.len() as int)
                    &&& final(self).inverted_lists@[c].batch.data@ == old(self).inverted_lists@[c].batch.data@
                        + routed_rows(*vectors, clusters@, c, ids@.len() as int)
                },
    {
        if !self.is_trained {
            return Err(IvfRejection::NotTrained);
        }
        if ids.len() != vectors.num_vectors {
            return Err(IvfRejection::CountMismatch { ids: ids.len(), vectors: vectors.num_vectors });
        }
        let ghost before = self.inverted_lists@;
        let n = ids.len();
        let mut i: usize = 0;
        while i < n
            invariant
                self.wf(),
                self.is_trained,
                self.dim == old(self).dim,
                self.metric == old(self).metric,
                self.centroids == old(self).centroids,
                self.inverted_lists@.len() == before.len(),
                before == old(self).inverted_lists@,
                n == ids@.len(),
                n == vectors.num_vectors,
                vectors.wf(),
                vectors.dim == self.dim,
                i <= n,
                clusters@.len() == n,
                forall|t: int| 0 <= t < n ==> (#[trigger] clusters@[t]) < before.len(),
                forall|t: int| 0 <= t < n ==> !before[clusters@[t] as int].ids@.contains(#[trigger] ids@[t]),
                forall|a: int, b: int|
                    0 <= a < b < n && clusters@[a] == clusters@[b] ==> #[trigger] ids@[a] != #[trigger] ids@[b],
                forall|c: int| 0 <= c < before.len() ==> (#[trigger] before[c]).batch.num_vectors + n <= usize::MAX,
                forall|c: int| 0 <= c < before.len() ==> (#[trigger] before[c]).wf(),
                forall|c: int|
                    0 <= c < before.len() ==> {
                        &&& (#[trigger] self.inverted_lists@[c]).ids@ == before[c].ids@ + routed_ids(
                            ids@,
                            clusters@,
                            c,
                            i as int,
                        )
                        &&& self.inverted_lists@[c].batch.data@ == before[c].batch.data@ + routed_rows(
                            *vectors,
                            clusters@,
                            c,
                            i as int,
                        )
                    },
            decreases n - i,
        {
            let c = clusters[i];
            let id = ids[i];
            proof {
                lemma_routed_ids(ids@, clusters@, c as int, i as int);
                let cur = self.inverted_lists@[c as int];
                let r = routed_ids(ids@, clusters@, c as int, i as int);
                assert(cur.ids@ == before[c as int].ids@ + r);
                if cur.ids@.contains(id) {
                    let k = choose|k: int| 0 <= k < cur.ids@.len() && #[trigger] cur.ids@[k] == id;
                    if k < before[c as int].ids@.len() {
                        assert(before[c as int].ids@[k] == id);
                        assert(before[c as int].ids@.contains(id));
                    } else {
                        assert(r[k - before[c as int].ids@.len()] == id);
                        assert(r.contains(id));
                        let j = choose|j: int| 0 <= j < i && clusters@[j] == c && #[trigger] ids@[j] == id;
                        assert(ids@[j] != ids@[i as int]);
                    }
                }
                assert(cur.wf());
                assert(before[c as int].wf());
                assert(cur.batch.num_vectors == before[c as int].batch.num_vectors + r.len());
            }
            let row = vectors.get(i);
            let ghost mid = self.inverted_lists@;
            let added = self.add(id, row, c);
            proof {
                assert forall|d: int| 0 <= d < before.len() implies {
                    &&& (#[trigger] self.inverted_lists@[d]).ids@ == before[d].ids@ + routed_ids(
                        ids@,
                        clusters@,
                        d,
                        i as int + 1,
                    )
                    &&& self.inverted_lists@[d].batch.data@ == before[d].batch.data@ + routed_rows(
                        *vectors,
                        clusters@,
                        d,
                        i as int + 1,
                    )
                } by {
                    if d == c as int {
                        assert(before[d].ids@ + routed_ids(ids@, clusters@, d, i as int).push(id) =~= (
                        before[d].ids@ + routed_ids(ids@, clusters@, d, i as int)).push(id));
                        assert(before[d].batch.data@ + (routed_rows(*vectors, clusters@, d, i as int)
                            + vectors.row(i as int)) =~= before[d].batch.data@ + routed_rows(
                            *vectors,
                            clusters@,
                            d,
                            i as int,
                        ) + vectors.row(i as int));
                    } else {
                        assert(self.inverted_lists@[d] == mid[d]);
                    }
                }
            }
            i = i + 1;
        }
        Ok(())
    }
}

/// The IDs among the first `n` of a batch that are routed to cluster `c`,
/// in batch order.
pub open spec fn routed_ids(ids: Seq<u64>, clusters: Seq<usize>, c: int, n: int) -> Seq<u64>
    decreases n,
{
    if n <= 0 {
        Seq::empty()
    } else if clusters[n - 1] == c {
        routed_ids(ids, clusters, c, n - 1).push(ids[n - 1])
    } else {
        routed_ids(ids, clusters, c, n - 1)
    }
}

/// The coordinates of the rows among the first `n` of a batch that are
/// routed to cluster `c`, in batch order.
pub open spec fn routed_rows(vectors: VectorBatch, clusters: Seq<usize>, c: int, n: int) -> Seq<u32>
    decreases n,
{
    if n <= 0 {
        Seq::empty()
    } else if clusters[n - 1] == c {
        routed_rows(vectors, clusters, c, n - 1) + vectors.row(n - 1)
    } else {
        routed_rows(vectors, clusters, c, n - 1)
    }
}

/// Every routed ID is the ID of an earlier batch row routed to that cluster,
/// and no more IDs are routed than rows were seen.
pub proof fn lemma_routed_ids(ids: Seq<u64>, clusters: Seq<usize>, c: int, n: int)
    requires
        0 <= n,
    ensures
        routed_ids(ids, clusters, c, n).len() <= n,
        forall|x: u64|
            #[trigger] routed_ids(ids, clusters, c, n).contains(x) ==> exists|j: int|
                0 <= j < n && clusters[j] == c && ids[j] == x,
    decreases n,
{
    if n > 0 {
        lemma_routed_ids(ids, clusters, c, n - 1);
        let prev = routed_ids(ids, clusters, c, n - 1);
        assert forall|x: u64| #[trigger] routed_ids(ids, clusters, c, n).contains(x) implies exists|j: int|
            0 <= j < n && clusters[j] == c && ids[j] == x by {
            if clusters[n - 1] == c && x == ids[n - 1] {
                assert(clusters[n - 1] == c && ids[n - 1] == x);
            } else if clusters[n - 1] == c {
                let pp = prev.push(ids[n - 1]);
                let k = choose|k: int| 0 <= k < pp.len() && #[trigger] pp[k] == x;
                assert(prev[k] == x);
                assert(prev.contains(x));
            } else {
                assert(prev.contains(x));
            }
        }
    }
}

/// The number of vectors in the first `j` selected clusters.
pub open spec fn selected_total(ls: Seq<FlatIndexView>, selected: Seq<usize>, j: int) -> nat
    decreases j,
{
    if j <= 0 {
        0
    } else {
        selected_total(ls, selected, j - 1) + ls[selected[j - 1] as int].num_vectors
    }
}

/// Partial sums of selected cluster sizes grow with the prefix.
pub proof fn lemma_selected_total_mono(ls: Seq<FlatIndexView>, selected: Seq<usize>, i: int, j: int)
    requires
        0 <= i <= j,
    ensures
        selected_total(ls, selected, i) <= selected_total(ls, selected, j),
    decreases j - i,
{
    if i < j {
        lemma_selected_total_mono(ls, selected, i, j - 1);
    }
}

/// Probing a longer list of clusters that starts with a shorter one never
/// covers fewer vectors.
pub proof fn lemma_coverage_prefix(ls: Seq<FlatIndexView>, a: Seq<usize>, b: Seq<usize>)
    requires
        a.len() <= b.len(),
        a == b.take(a.len() as int),
    ensures
        selected_total(ls, a, a.len() as int) <= selected_total(ls, b, b.len() as int),
{
    lemma_selected_total_agree(ls, a, b, a.len() as int);
    lemma_selected_total_mono(ls, b, a.len() as int, b.len() as int);
}

/// Selections that agree on their first `j` clusters cover the same vectors
/// there.
proof fn lemma_selected_total_agree(ls: Seq<FlatIndexView>, a: Seq<usize>, b: Seq<usize>, j: int)
    requires
        0 <= j <= a.len(),
        j <= b.len(),
        forall|t: int| 0 <= t < j ==> a[t] == b[t],
    ensures
        selected_total(ls, a, j) == selected_total(ls, b, j),
    decreases j,
{
    if j > 0 {
        lemma_selected_total_agree(ls, a, b, j - 1);
    }
}

} // verus!
