//! Shared run parameters and small collection helpers.

use vstd::prelude::*;
use std::collections::HashSet;

verus! {

broadcast use vstd::std_specs::hash::group_hash_axioms;

/// Collect the elements of a hash set into a vector, in no particular order.
pub fn hash_set_to_vec(hs: &HashSet<u64>) -> (r: Vec<u64>)
    ensures
        r@.to_set() == hs@,
        r@.len() == hs@.len(),
{
    let mut r: Vec<u64> = Vec::new();
    for h in it: hs.iter()
        invariant
            r@ =~= it.seq().subrange(0, it.index() as int).unref(),
            it.seq().unref().to_set() == hs@,
            it.seq().len() == hs@.len(),
            it.index() == it.seq().len() ==> r@.to_set() == hs@ && r@.len() == hs@.len(),
    {
        r.push(*h);
        proof {
            let i0 = it.index() as int;
            let sq = it.seq();
            assert(sq.subrange(0, i0 + 1) =~= sq.subrange(0, i0).push(sq[i0]));
            assert(sq.subrange(0, i0 + 1).unref() =~= sq.subrange(0, i0).unref().push(*sq[i0]));
            assert(r@ =~= sq.subrange(0, i0 + 1).unref());
            assert(i0 + 1 == sq.len() ==> sq.subrange(0, i0 + 1) =~= sq);
            assert(i0 + 1 == sq.len() ==> r@.to_set() =~= sq.unref().to_set());
            assert(i0 + 1 == sq.len() ==> r@.to_set() == hs@ && r@.len() == hs@.len());
        }
    }
    r
}

/// Parameters shared by the index builder and the classifier.
pub struct Config {
    /// K-mer length, in bases.
    pub kmer_size: usize,
    /// Number of bootstrap iterations per query.
    pub num_bootstraps: usize,
    /// Number of hashes sampled (with replacement) per bootstrap iteration.
    pub num_query_hashes: usize,
    /// Fractional downsampling factor: a k-mer is kept iff its canonical
    /// value is at most `u64::MAX / ds_factor`.
    pub ds_factor: u64,
}

/// The documented parameter ranges for k-mer hashing.
pub open spec fn valid_kmer_params(kmer_size: usize, ds_factor: u64) -> bool {
    &&& 7 <= kmer_size <= 30
    &&& 1 <= ds_factor <= 99
}

impl Config {
    /// All four parameters lie in their documented ranges.
    pub open spec fn wf(&self) -> bool {
        &&& valid_kmer_params(self.kmer_size, self.ds_factor)
        &&& 10 <= self.num_bootstraps <= 199
        &&& 10 <= self.num_query_hashes <= 99
    }
}

} // verus!
