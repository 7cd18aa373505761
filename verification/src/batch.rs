//! Contiguous storage for a batch of vectors.
//!
//! Row `i` occupies `data[i * dim .. (i + 1) * dim]`; each coordinate is the
//! bit pattern of an `f32`.

use vstd::prelude::*;
use vstd::slice::slice_subrange;
use vstd::string::*;
use crate::text::{decimal, decimal_string};

verus! {

/// A contiguous batch of vectors stored in a single flat buffer.
#[derive(Debug, Clone)]
pub struct VectorBatch {
    /// Flat storage of `f32` bit patterns: length = `num_vectors * dim`.
    pub data: Vec<u32>,
    /// Dimensionality of each vector.
    pub dim: usize,
    /// Number of vectors currently stored.
    pub num_vectors: usize,
}

/// The rows of a flat buffer of `n` vectors of dimension `dim`.
pub open spec fn rows_of(data: Seq<u32>, dim: nat, n: nat) -> Seq<Seq<u32>> {
    Seq::new(n, |i: int| data.subrange(i * dim, i * dim + dim))
}

/// The message of the error for a buffer whose length does not fit its shape.
pub open spec fn shape_mismatch_message(len: nat, dim: nat, n: nat) -> Seq<char> {
    "vector data length "@ + decimal(len) + " does not match "@ + decimal(n)
        + " vectors of dimension "@ + decimal(dim)
}

pub proof fn lemma_row_bounds(i: int, n: int, dim: int)
    requires
        0 <= i < n,
        0 <= dim,
    ensures
        0 <= i * dim,
        i * dim + dim <= n * dim,
{
    assert(i * dim + dim <= n * dim) by (nonlinear_arith)
        requires
            0 <= i < n,
            0 <= dim,
    ;
    assert(0 <= i * dim) by (nonlinear_arith)
        requires
            0 <= i,
            0 <= dim,
    ;
}

impl VectorBatch {
    /// The buffer holds exactly `num_vectors` rows of `dim` coordinates.
    pub open spec fn wf(&self) -> bool {
        self.data@.len() == self.dim * self.num_vectors
    }

    /// Row `i`.
    pub open spec fn row(&self, i: int) -> Seq<u32> {
        self.data@.subrange(i * self.dim, i * self.dim + self.dim)
    }

    /// All rows, in order.
    pub open spec fn rows(&self) -> Seq<Seq<u32>> {
        rows_of(self.data@, self.dim as nat, self.num_vectors as nat)
    }

    /// Create an empty batch for vectors of the given dimensionality.
    pub fn new(dim: usize) -> (b: Self)
        ensures
            b.wf(),
            b.dim == dim,
            b.num_vectors == 0,
            b.data@ == Seq::<u32>::empty(),
    {
        VectorBatch { data: Vec::new(), dim, num_vectors: 0 }
    }

    /// Build a batch from a flat buffer, checking that its length is
    /// `num_vectors * dim`.
    pub fn from_parts(data: Vec<u32>, dim: usize, num_vectors: usize) -> (res: Result<Self, String>)
        ensures
            res is Ok <==> data@.len() == dim * num_vectors,
            res matches Ok(b) ==> b.wf() && b.data@ == data@ && b.dim == dim && b.num_vectors
                == num_vectors,
            res matches Err(msg) ==> msg@ == shape_mismatch_message(
                data@.len(),
                dim as nat,
                num_vectors as nat,
            ),
    {
        let len = data.len();
        let expected = dim.checked_mul(num_vectors);
        let ok = match expected {
            Some(e) => e == len,
            None => false,
        };
        if ok {
            Ok(VectorBatch { data, dim, num_vectors })
        } else {
            proof {
                if data@.len() == dim * num_vectors {
                    assert(dim * num_vectors <= usize::MAX);
                }
            }
            let mut msg = String::from_str("vector data length ");
            let s1 = decimal_string(data.len() as u64);
            msg.append(s1.as_str());
            msg.append(" does not match ");
            let s2 = decimal_string(num_vectors as u64);
            msg.append(s2.as_str());
            msg.append(" vectors of dimension ");
            let s3 = decimal_string(dim as u64);
            msg.append(s3.as_str());
            Err(msg)
        }
    }

    /// Append a vector to the batch.
    pub fn push(&mut self, vector: &[u32])
        requires
            old(self).wf(),
            vector@.len() == old(self).dim,
            old(self).num_vectors < usize::MAX,
        ensures
            final(self).wf(),
            final(self).dim == old(self).dim,
            final(self).num_vectors == old(self).num_vectors + 1,
            final(self).data@ == old(self).data@ + vector@,
    {
        let ghost n = self.num_vectors as int;
        let ghost d = self.dim as int;
        self.data.extend_from_slice(vector);
        self.num_vectors = self.num_vectors + 1;
        proof {
            assert(d * (n + 1) == d * n + d) by (nonlinear_arith);
            assert(self.data@ =~= old(self).data@ + vector@);
        }
    }

    /// Return the coordinates of the vector at `index`.
    pub fn get(&self, index: usize) -> (v: &[u32])
        requires
            self.wf(),
            index < self.num_vectors,
        ensures
            v@ == self.row(index as int),
            v@.len() == self.dim,
    {
        let total = self.data.len();
        proof {
            lemma_row_bounds(index as int, self.num_vectors as int, self.dim as int);
            assert(self.dim * self.num_vectors == self.num_vectors * self.dim) by (nonlinear_arith);
        }
        let start = index * self.dim;
        slice_subrange(self.data.as_slice(), start, start + self.dim)
    }

    /// Number of vectors in the batch.
    pub fn len(&self) -> (n: usize)
        ensures
            n == self.num_vectors,
    {
        self.num_vectors
    }

    /// Returns `true` if the batch holds no vectors.
    pub fn is_empty(&self) -> (b: bool)
        ensures
            b == (self.num_vectors == 0),
    {
        self.num_vectors == 0
    }

    /// Dimensionality of the vectors in the batch.
    pub fn dim(&self) -> (d: usize)
        ensures
            d == self.dim,
    {
        self.dim
    }
}

} // verus!
