//! Work distribution. A single shared cursor hands out fixed-size chunk
//! offsets: the k-th claim gets nominal start `k * chunk_size`, and claims
//! stop once the nominal start passes the length of the file. The structure
//! is sequential; the surrounding program shares it between workers behind
//! its own lock, and no two claims ever see the same offset.

use vstd::prelude::*;

verus! {

/// The cursor over a file's byte length: how many chunks have been handed
/// out, and how large each is. The running product is kept wide so that a
/// claim near the end of a huge file cannot wrap.
pub struct WorkDistributor {
    pub chunk_size: u64,
    pub file_len: u64,
    pub issued: u128,
}

/// Distinct claims get distinct offsets: the k-th and the j-th successful
/// claim of one cursor can never return the same nominal start.
pub proof fn lemma_claims_distinct(k1: int, k2: int, chunk_size: int)
    requires
        chunk_size >= 1,
        0 <= k1 < k2,
    ensures
        k1 * chunk_size < k2 * chunk_size,
{
    assert(k1 * chunk_size < k2 * chunk_size) by (nonlinear_arith)
        requires
            chunk_size >= 1,
            0 <= k1 < k2,
    ;
}

impl WorkDistributor {
    /// At most one claim has passed the end of the file.
    pub open spec fn wf(self) -> bool {
        &&& self.chunk_size >= 1
        &&& (self.issued == 0 || (self.issued - 1) * self.chunk_size as int <= self.file_len as int)
    }

    /// A fresh cursor: nothing handed out yet.
    pub fn new(file_len: u64, chunk_size: u64) -> (r: WorkDistributor)
        requires
            chunk_size >= 1,
        ensures
            r.wf(),
            r.chunk_size == chunk_size,
            r.file_len == file_len,
            r.issued == 0,
    {
        WorkDistributor { chunk_size, file_len, issued: 0 }
    }

    /// The next chunk's nominal start offset, or nothing once the offsets
    /// are exhausted. The k-th successful claim returns exactly
    /// `k * chunk_size`, so no two claims ever share an offset.
    pub fn next_chunk_start(&mut self) -> (r: Option<u64>)
        requires
            old(self).wf(),
        ensures
            final(self).wf(),
            final(self).chunk_size == old(self).chunk_size,
            final(self).file_len == old(self).file_len,
            match r {
                Some(s) => {
                    &&& s as int == old(self).issued as int * old(self).chunk_size as int
                    &&& s <= old(self).file_len
                    &&& final(self).issued == old(self).issued + 1
                },
                None => {
                    &&& old(self).issued as int * old(self).chunk_size as int > old(
                        self,
                    ).file_len as int
                    &&& *final(self) == *old(self)
                },
            },
    {
        proof {
            if self.issued > 0 {
                assert(self.issued as int * self.chunk_size as int == (self.issued - 1)
                    * self.chunk_size as int + self.chunk_size as int) by (nonlinear_arith);
            }
        }
        let prod: u128 = self.issued * (self.chunk_size as u128);
        if prod > self.file_len as u128 {
            return None;
        }
        proof {
            assert(self.issued as int <= self.issued as int * self.chunk_size as int) by (
            nonlinear_arith)
                requires
                    self.chunk_size >= 1,
                    self.issued >= 0,
            ;
        }
        self.issued = self.issued + 1;
        Some(prod as u64)
    }
}

} // verus!
