//! The rules of the Python-facing interface: how its arguments are checked,
//! in which order, and what each refusal says.
//!
//! The binding turns the host language's objects into plain values (lengths,
//! names, IDs), applies these checks and then calls the indexes.

use vstd::prelude::*;
use vstd::string::*;
use crate::flat_index::{BatchRejection, InsertRejection};
use crate::metric::Metric;
use crate::server::{metric_by_name, metric_named};
use crate::text::{ascii_lower, decimal, framed, framed2, framed3};

verus! {

/// The message for a metric name that names no metric.
pub open spec fn unknown_metric_message(metric: Seq<char>) -> Seq<char> {
    "unknown metric '"@ + metric + "': expected 'euclidean', 'cosine', or 'dot_product'"@
}

/// The message for a zero dimension.
pub open spec fn zero_dimension_message() -> Seq<char> {
    "dimension must be greater than 0"@
}

/// The message for a vector whose length differs from the index's.
pub open spec fn vector_length_message(expected: nat, got: nat) -> Seq<char> {
    "vector dimension mismatch: expected "@ + decimal(expected) + ", got "@ + decimal(got)
}

/// The message for a query whose length differs from the index's.
pub open spec fn query_length_message(expected: nat, got: nat) -> Seq<char> {
    "query dimension mismatch: expected "@ + decimal(expected) + ", got "@ + decimal(got)
}

/// The message for ID and vector counts that differ.
pub open spec fn count_message(ids: nat, vectors: nat) -> Seq<char> {
    "ids count ("@ + decimal(ids) + ") != vectors count ("@ + decimal(vectors) + ")"@
}

/// The message for the row at `i` of length `len` in a batch of dimension `dim`.
pub open spec fn row_message(i: nat, len: nat, dim: nat) -> Seq<char> {
    "vector at index "@ + decimal(i) + " has dimension "@ + decimal(len) + ", expected "@ + decimal(dim)
}

/// The message for the training row at `i` of length `len`.
pub open spec fn training_row_message(i: nat, len: nat, dim: nat) -> Seq<char> {
    "training vector at index "@ + decimal(i) + " has dimension "@ + decimal(len) + ", expected "@ + decimal(dim)
}

/// The message for training with a cluster count other than the index's.
pub open spec fn cluster_count_message(k: nat, num_clusters: nat) -> Seq<char> {
    "k ("@ + decimal(k) + ") must equal index num_clusters ("@ + decimal(num_clusters) + ")"@
}

/// The message for fewer training rows than clusters.
pub open spec fn too_few_rows_message(rows: nat, num_clusters: nat) -> Seq<char> {
    "insufficient training vectors ("@ + decimal(rows) + ") for num_clusters="@ + decimal(num_clusters)
}

/// The first position at or after `i` whose length is not `dim`, if any.
pub open spec fn first_off_from(lens: Seq<usize>, dim: usize, i: int) -> Option<int>
    decreases lens.len() - i,
{
    if i < 0 || i >= lens.len() {
        None
    } else if lens[i] != dim {
        Some(i)
    } else {
        first_off_from(lens, dim, i + 1)
    }
}

/// The first position whose length is not `dim`, if any.
pub open spec fn first_off(lens: Seq<usize>, dim: usize) -> Option<int> {
    first_off_from(lens, dim, 0)
}

/// The metric a name denotes, ignoring ASCII case.
pub fn metric_for(metric: &str) -> (res: Result<Metric, String>)
    ensures
        metric_named(ascii_lower(metric@)) matches Some(m) ==> res == Ok::<Metric, String>(m),
        metric_named(ascii_lower(metric@)) is None ==> (res matches Err(msg) && msg@ == unknown_metric_message(
            metric@,
        )),
{
    match metric_by_name(metric) {
        Some(m) => Ok(m),
        None => {
            let mut msg = String::from_str("unknown metric '");
            msg.append(metric);
            msg.append("': expected 'euclidean', 'cosine', or 'dot_product'");
            Err(msg)
        },
    }
}

/// A dimension must be positive.
pub fn check_dimension(dim: usize) -> (res: Result<(), String>)
    ensures
        dim == 0 ==> (res matches Err(msg) && msg@ == zero_dimension_message()),
        dim > 0 ==> res is Ok,
{
    if dim == 0 {
        return Err(String::from_str("dimension must be greater than 0"));
    }
    Ok(())
}

/// The parameters of a new IVF index: the dimension, then the cluster count.
pub fn check_ivf_params(dim: usize, num_clusters: usize) -> (res: Result<(), String>)
    ensures
        dim == 0 ==> (res matches Err(msg) && msg@ == zero_dimension_message()),
        dim > 0 && num_clusters == 0 ==> (res matches Err(msg) && msg@
            == "num_clusters must be greater than 0"@),
        res is Ok <==> dim > 0 && num_clusters > 0,
{
    check_dimension(dim)?;
    if num_clusters == 0 {
        return Err(String::from_str("num_clusters must be greater than 0"));
    }
    Ok(())
}

/// The parameters of a new HNSW index: the dimension, then `m` (at least
/// two links per node), then the construction beam width.
pub fn check_hnsw_params(dim: usize, m: usize, ef_construction: usize) -> (res: Result<(), String>)
    ensures
        dim == 0 ==> (res matches Err(msg) && msg@ == zero_dimension_message()),
        dim > 0 && m <= 1 ==> (res matches Err(msg) && msg@ == "m must be greater than 1"@),
        dim > 0 && m > 1 && ef_construction == 0 ==> (res matches Err(msg) && msg@
            == "ef_construction must be greater than 0"@),
        res is Ok <==> dim > 0 && m > 1 && ef_construction > 0,
{
    check_dimension(dim)?;
    if m <= 1 {
        return Err(String::from_str("m must be greater than 1"));
    }
    if ef_construction == 0 {
        return Err(String::from_str("ef_construction must be greater than 0"));
    }
    Ok(())
}

/// A vector to insert must have the index's dimension.
pub fn check_vector(expected: usize, got: usize) -> (res: Result<(), String>)
    ensures
        got != expected ==> (res matches Err(msg) && msg@ == vector_length_message(expected as nat, got as nat)),
        got == expected ==> res is Ok,
{
    if got != expected {
        proof {
            reveal_strlit("");
        }
        return Err(framed2("vector dimension mismatch: expected ", expected as u64, ", got ", got as u64, ""));
    }
    Ok(())
}

/// A query must have the index's dimension.
pub fn check_query(expected: usize, got: usize) -> (res: Result<(), String>)
    ensures
        got != expected ==> (res matches Err(msg) && msg@ == query_length_message(expected as nat, got as nat)),
        got == expected ==> res is Ok,
{
    if got != expected {
        proof {
            reveal_strlit("");
        }
        return Err(framed2("query dimension mismatch: expected ", expected as u64, ", got ", got as u64, ""));
    }
    Ok(())
}

/// The first position whose length is not `dim`.
fn find_off(lens: &[usize], dim: usize) -> (r: Option<usize>)
    ensures
        r matches Some(i) ==> i < lens@.len() && first_off(lens@, dim) == Some(i as int),
        r is None ==> first_off(lens@, dim) is None,
{
    let mut i: usize = 0;
    while i < lens.len()
        invariant
            i <= lens@.len(),
            first_off(lens@, dim) == first_off_from(lens@, dim, i as int),
        decreases lens@.len() - i,
    {
        if lens[i] != dim {
            return Some(i);
        }
        i = i + 1;
    }
    None
}

/// A batch of rows with lengths `lens` and `ids_len` IDs: the counts must
/// agree, then every row must have dimension `dim` (the first that does not
/// is reported).
pub fn check_rows(ids_len: usize, lens: &[usize], dim: usize) -> (res: Result<(), String>)
    ensures
        ids_len != lens@.len() ==> (res matches Err(msg) && msg@ == count_message(ids_len as nat, lens@.len())),
        ids_len == lens@.len() ==> match first_off(lens@, dim) {
            Some(i) => res matches Err(msg) && msg@ == row_message(i as nat, lens@[i] as nat, dim as nat),
            None => res is Ok,
        },
{
    if ids_len != lens.len() {
        return Err(framed2("ids count (", ids_len as u64, ") != vectors count (", lens.len() as u64, ")"));
    }
    match find_off(lens, dim) {
        Some(i) => Err(
            framed3("vector at index ", i as u64, " has dimension ", lens[i] as u64, ", expected ", dim as u64),
        ),
        None => Ok(()),
    }
}

/// The message for the first training row of another dimension.
fn training_row_error(lens: &[usize], i: usize, dim: usize) -> (msg: String)
    requires
        i < lens@.len(),
    ensures
        msg@ == training_row_message(i as nat, lens@[i as int] as nat, dim as nat),
{
    framed3("training vector at index ", i as u64, " has dimension ", lens[i] as u64, ", expected ", dim as u64)
}

/// Training rows for an IVF index: there must be some, `k` must be the
/// index's cluster count, and every row must have dimension `dim`.
pub fn check_ivf_training(lens: &[usize], k: usize, num_clusters: usize, dim: usize) -> (res: Result<(), String>)
    ensures
        lens@.len() == 0 ==> (res matches Err(msg) && msg@ == "training_data cannot be empty"@),
        lens@.len() > 0 && k != num_clusters ==> (res matches Err(msg) && msg@ == cluster_count_message(
            k as nat,
            num_clusters as nat,
        )),
        lens@.len() > 0 && k == num_clusters ==> match first_off(lens@, dim) {
            Some(i) => res matches Err(msg) && msg@ == training_row_message(i as nat, lens@[i] as nat, dim as nat),
            None => res is Ok,
        },
{
    if lens.len() == 0 {
        return Err(String::from_str("training_data cannot be empty"));
    }
    if k != num_clusters {
        return Err(framed2("k (", k as u64, ") must equal index num_clusters (", num_clusters as u64, ")"));
    }
    match find_off(lens, dim) {
        Some(i) => Err(training_row_error(lens, i, dim)),
        None => Ok(()),
    }
}

/// Training rows for an IVF-PQ index: there must be some, every row must
/// have dimension `dim`, and there must be at least one per cluster.
pub fn check_ivf_pq_training(lens: &[usize], num_clusters: usize, dim: usize) -> (res: Result<(), String>)
    ensures
        lens@.len() == 0 ==> (res matches Err(msg) && msg@ == "training_data cannot be empty"@),
        lens@.len() > 0 ==> match first_off(lens@, dim) {
            Some(i) => res matches Err(msg) && msg@ == training_row_message(i as nat, lens@[i] as nat, dim as nat),
            None => if lens@.len() < num_clusters {
                res matches Err(msg) && msg@ == too_few_rows_message(lens@.len(), num_clusters as nat)
            } else {
                res is Ok
            },
        },
{
    if lens.len() == 0 {
        return Err(String::from_str("training_data cannot be empty"));
    }
    match find_off(lens, dim) {
        Some(i) => Err(training_row_error(lens, i, dim)),
        None => {
            if lens.len() < num_clusters {
                proof {
                    reveal_strlit("");
                }
                Err(
                    framed2(
                        "insufficient training vectors (",
                        lens.len() as u64,
                        ") for num_clusters=",
                        num_clusters as u64,
                        "",
                    ),
                )
            } else {
                Ok(())
            }
        },
    }
}

/// What a refused single insertion into a flat index says.
pub fn insert_rejection_message(r: InsertRejection) -> (msg: String)
    ensures
        r matches InsertRejection::DimensionMismatch { expected, got } ==> msg@ == vector_length_message(
            expected as nat,
            got as nat,
        ),
        r matches InsertRejection::DuplicateId(id) ==> msg@ == "duplicate id "@ + decimal(id as nat)
            + ": already exists in index"@,
{
    match r {
        InsertRejection::DimensionMismatch { expected, got } => {
            proof {
                reveal_strlit("");
            }
            framed2("vector dimension mismatch: expected ", expected as u64, ", got ", got as u64, "")
        },
        InsertRejection::DuplicateId(id) => framed("duplicate id ", id, ": already exists in index"),
    }
}

/// What a refused batch insertion into a flat index says.
pub fn batch_rejection_message(r: BatchRejection) -> (msg: String)
    ensures
        r matches BatchRejection::CountMismatch { ids, vectors } ==> msg@ == count_message(ids as nat, vectors as nat),
        r matches BatchRejection::DimensionMismatch { vectors, index } ==> msg@ == vector_length_message(
            index as nat,
            vectors as nat,
        ),
        r matches BatchRejection::DuplicateInBatch(id) ==> msg@ == "duplicate id "@ + decimal(id as nat)
            + " within incoming batch"@,
        r matches BatchRejection::DuplicateInIndex(id) ==> msg@ == "duplicate id "@ + decimal(id as nat)
            + " (already exists in index)"@,
{
    match r {
        BatchRejection::CountMismatch { ids, vectors } => framed2(
            "ids count (",
            ids as u64,
            ") != vectors count (",
            vectors as u64,
            ")",
        ),
        BatchRejection::DimensionMismatch { vectors, index } => {
            proof {
                reveal_strlit("");
            }
            framed2("vector dimension mismatch: expected ", index as u64, ", got ", vectors as u64, "")
        },
        BatchRejection::DuplicateInBatch(id) => framed("duplicate id ", id, " within incoming batch"),
        BatchRejection::DuplicateInIndex(id) => framed("duplicate id ", id, " (already exists in index)"),
    }
}

/// What loading a file whose type code names no index type says.
pub fn unknown_index_type_message(code: u8, path: &str) -> (msg: String)
    ensures
        msg@ == "unknown index type code "@ + decimal(code as nat) + " in file '"@ + path@ + "'"@,
{
    let mut msg = framed("unknown index type code ", code as u64, " in file '");
    msg.append(path);
    msg.append("'");
    msg
}

} // verus!
