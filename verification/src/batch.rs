//! Sparse input batches in CSR form, and partitioning of work.

use vstd::prelude::*;

verus! {

/// A batch of sparse vectors in CSR form: vector `n` is the index slice
/// `indices[markers[n] .. markers[n + 1]]`. Feature weights do not take part
/// in hashing, so the engine's view of a batch carries the indices alone.
pub struct SparseBatch {
    pub markers: Vec<usize>,
    pub indices: Vec<u32>,
}

impl SparseBatch {
    /// CSR well-formedness: one more marker than vectors, starting at 0,
    /// weakly increasing, ending at the length of `indices`.
    pub open spec fn wf(&self) -> bool {
        &&& self.markers@.len() >= 1
        &&& self.markers@[0] == 0
        &&& forall|i: int, j: int|
            0 <= i <= j < self.markers@.len() ==> self.markers@[i] <= self.markers@[j]
        &&& self.markers@[self.markers@.len() - 1] == self.indices@.len()
    }

    /// The number of vectors in the batch.
    pub open spec fn spec_len(&self) -> nat {
        (self.markers@.len() - 1) as nat
    }

    pub fn len(&self) -> (r: usize)
        requires
            self.wf(),
        ensures
            r == self.spec_len(),
    {
        self.markers.len() - 1
    }
}

/// Splits `total_len` items into `num` contiguous chunk lengths, the first
/// `total_len % num` chunks one longer than the rest, so that the chunk
/// lengths sum back to `total_len`.
pub fn partition(total_len: usize, num: usize) -> (r: Vec<usize>)
    requires
        num >= 1,
    ensures
        r@.len() == num,
        forall|i: int|
            0 <= i < num ==> r@[i] == (if i < total_len % num {
                total_len / num + 1
            } else {
                (total_len / num) as int
            }),
{
    let base = total_len / num;
    let rmdr = total_len % num;

    let mut r: Vec<usize> = Vec::new();
    let mut i: usize = 0;
    while i < num
        invariant
            i <= num,
            num >= 1,
            base == total_len / num,
            rmdr == total_len % num,
            r@.len() == i,
            forall|j: int|
                0 <= j < i ==> r@[j] == (if j < rmdr {
                    base + 1
                } else {
                    base as int
                }),
        decreases num - i,
    {
        if i < rmdr {
            assert(base * num + rmdr == total_len && base <= base * num) by (nonlinear_arith)
                requires
                    num >= 1,
                    base == total_len / num,
                    rmdr == total_len % num,
            ;
            r.push(base + 1);
        } else {
            r.push(base);
        }
        i = i + 1;
    }
    r
}

} // verus!
