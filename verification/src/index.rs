//! Inverted k-mer index over a reference corpus.
//!
//! Every reference record receives a dense ordinal in stream order; for each
//! canonical k-mer hash the index keeps a posting list: a packed bit vector
//! whose bit i is set exactly when reference ordinal i contains that hash.

use vstd::prelude::*;
use std::collections::HashMap;
use crate::kmer_bitset::KmerBitSet;
use crate::kmers::{kmer_hash_set, kmerize};
use crate::utils::{hash_set_to_vec, valid_kmer_params, Config};

verus! {

broadcast use vstd::std_specs::hash::group_hash_axioms;

/// A reference or query record: an identifier and a nucleotide sequence.
pub struct Record {
    /// Record identifier, kept in the database.
    pub id: String,
    /// Nucleotide sequence; discarded after indexing.
    pub seq: Vec<u8>,
}

/// Inverted index: canonical k-mer hash -> posting list over reference
/// ordinals, together with the list of distinct hashes it contains.
pub struct ReverseIndex {
    /// Hash to posting list.
    pub map: HashMap<u64, KmerBitSet>,
    /// The distinct hashes present in `map`, in insertion order.
    pub hashes: Vec<u64>,
    /// Number of references: capacity of every posting list.
    pub num_records: usize,
}

impl ReverseIndex {
    /// The hash occurs in at least one reference.
    pub open spec fn contains_hash(&self, h: u64) -> bool {
        self.map@.contains_key(h)
    }

    /// The posting list of a hash that is present.
    pub open spec fn posting(&self, h: u64) -> KmerBitSet {
        self.map@[h]
    }

    /// Reference ordinal `i` contains hash `h`.
    pub open spec fn posting_bit(&self, h: u64, i: int) -> bool {
        self.contains_hash(h) && self.posting(h).bit_set(i)
    }

    /// Structural invariant: the hash list mirrors the map's keys, and every
    /// posting list is a well-formed bit vector over the reference ordinals.
    pub open spec fn wf(&self) -> bool {
        &&& forall|h: u64|
            self.contains_hash(h) ==> (#[trigger] self.posting(h)).wf() && self.posting(
                h,
            ).spec_capacity() == self.num_records
        &&& forall|h: u64|
            #![trigger self.hashes@.contains(h)]
            #![trigger self.map@.contains_key(h)]
            self.hashes@.contains(h) <==> self.contains_hash(h)
        &&& self.hashes@.no_duplicates()
    }

    /// Look up the posting list of a hash.
    pub fn get(&self, h: u64) -> (r: Option<&KmerBitSet>)
        ensures
            match r {
                Some(bs) => self.contains_hash(h) && *bs == self.posting(h),
                None => !self.contains_hash(h),
            },
    {
        self.map.get(&h)
    }
}

/// Build the inverted index over `records` and return it together with the
/// ordinal -> identifier vector.
///
/// Ordinal `i` is assigned to `records[i]`; afterwards, for every hash `h`
/// and ordinal `i`, bit `i` of the posting list of `h` is set exactly when
/// `h` is a canonical k-mer hash of record `i`, and every stored posting
/// list has at least one bit set.
pub fn build_reverse_index(records: &Vec<Record>, kmer_size: usize, downsampling_factor: u64) -> (r:
    (ReverseIndex, Vec<String>))
    requires
        valid_kmer_params(kmer_size, downsampling_factor),
        records@.len() + 63 < usize::MAX,
    ensures
        r.0.wf(),
        r.0.num_records == records@.len(),
        r.1@.len() == records@.len(),
        forall|i: int| 0 <= i < records@.len() ==> r.1@[i]@ == records@[i].id@,
        forall|h: u64, i: int|
            0 <= i < records@.len() ==> (#[trigger] r.0.posting_bit(h, i) <==> kmer_hash_set(
                records@[i].seq@,
                kmer_size as int,
                downsampling_factor,
            ).contains(h)),
        forall|h: u64|
            #[trigger] r.0.contains_hash(h) ==> exists|i: int| r.0.posting_bit(h, i),
{
    let num_records = records.len();
    // only the k-mer parameters matter here; the bootstrap fields take
    // their default values and are never read by the coder
    let config = Config {
        kmer_size,
        num_bootstraps: 100,
        num_query_hashes: 32,
        ds_factor: downsampling_factor,
    };
    let mut index = ReverseIndex {
        map: HashMap::new(),
        hashes: Vec::new(),
        num_records,
    };
    let mut ids: Vec<String> = Vec::new();
    let ghost k = kmer_size as int;
    let ghost d = downsampling_factor;

    let mut i: usize = 0;
    while i < num_records
        invariant
            valid_kmer_params(kmer_size, downsampling_factor),
            num_records == records@.len(),
            records@.len() + 63 < usize::MAX,
            i <= num_records,
            k == kmer_size as int,
            d == downsampling_factor,
            config.kmer_size == kmer_size,
            config.ds_factor == downsampling_factor,
            index.wf(),
            index.num_records == num_records,
            ids@.len() == i,
            forall|t: int| 0 <= t < i ==> ids@[t]@ == records@[t].id@,
            forall|h: u64, t: int|
                0 <= t < i ==> (#[trigger] index.posting_bit(h, t) <==> kmer_hash_set(
                    records@[t].seq@,
                    k,
                    d,
                ).contains(h)),
            forall|h: u64, t: int| #[trigger] index.posting_bit(h, t) ==> 0 <= t < i,
            forall|h: u64|
                #[trigger] index.contains_hash(h) ==> exists|t: int| index.posting_bit(h, t),
        decreases num_records - i,
    {
        let record = &records[i];
        let hs = kmerize(&config, record.seq.as_slice());
        let hv = hash_set_to_vec(&hs);
        let ghost rset = kmer_hash_set(records@[i as int].seq@, k, d);

        let mut t: usize = 0;
        while t < hv.len()
            invariant
                valid_kmer_params(kmer_size, downsampling_factor),
                num_records == records@.len(),
                records@.len() + 63 < usize::MAX,
                i < num_records,
                k == kmer_size as int,
                d == downsampling_factor,
                t <= hv@.len(),
                hv@.to_set() == rset,
                rset == kmer_hash_set(records@[i as int].seq@, k, d),
                index.wf(),
                index.num_records == num_records,
                forall|h: u64, u: int|
                    0 <= u < i ==> (#[trigger] index.posting_bit(h, u) <==> kmer_hash_set(
                        records@[u].seq@,
                        k,
                        d,
                    ).contains(h)),
                forall|h: u64| #[trigger] index.posting_bit(h, i as int) <==> hv@.subrange(
                    0,
                    t as int,
                ).contains(h),
                forall|h: u64, u: int| #[trigger] index.posting_bit(h, u) ==> 0 <= u <= i,
                forall|h: u64|
                    #[trigger] index.contains_hash(h) ==> exists|u: int| index.posting_bit(h, u),
            decreases hv@.len() - t,
        {
            let h = hv[t];
            let ghost index0 = index;
            let ghost map0 = index.map@;
            let ghost hashes0 = index.hashes@;
            let ghost bit0 = |j: int| map0.contains_key(h) && map0[h].bit_set(j);
            if index.map.contains_key(&h) {
                proof {
                    assert(index.posting(h).wf());
                    assert(index.posting(h).spec_capacity() == num_records);
                }
                let existing = index.map.remove(&h);
                match existing {
                    Some(mut bs) => {
                        bs.set_unchecked(i);
                        index.map.insert(h, bs);
                        proof {
                            assert(index.map@ =~= map0.insert(h, bs));
                            assert(index.hashes@ == hashes0);
                            assert(forall|j: int|
                                #[trigger] index.map@[h].bit_set(j) <==> bit0(j) || j == i);
                        }
                    }
                    None => {
                        proof {
                            assert(false);
                        }
                    }
                }
            } else {
                let mut bs = KmerBitSet::new(num_records);
                bs.set_unchecked(i);
                index.map.insert(h, bs);
                index.hashes.push(h);
                proof {
                    assert(index.map@ =~= map0.insert(h, bs));
                    assert(index.hashes@ == hashes0.push(h));
                    assert(forall|j: int|
                        #[trigger] index.map@[h].bit_set(j) <==> bit0(j) || j == i);
                }
            }
            proof {
                let map1 = index.map@;
                let bsx = map1[h];
                // the new posting list of h is well-formed and holds bit i
                assert(bsx.wf() && bsx.spec_capacity() == num_records);
                assert(forall|j: int| #[trigger] bsx.bit_set(j) <==> bit0(j) || j == i);
                // the hash list still mirrors the map keys, without duplicates
                assert forall|x: u64| index.hashes@.contains(x) <==> map1.contains_key(x) by {
                    assert(hashes0.contains(x) <==> map0.contains_key(x));
                    if map0.contains_key(h) {
                        assert(index.hashes@ == hashes0);
                    } else {
                        assert(index.hashes@[hashes0.len() as int] == h);
                        assert(index.hashes@.contains(h));
                        if index.hashes@.contains(x) {
                            if x != h {
                                let w = choose|w: int|
                                    #![trigger index.hashes@[w]]
                                    0 <= w < index.hashes@.len() && index.hashes@[w] == x;
                                assert(hashes0[w] == x);
                            }
                        }
                        if map1.contains_key(x) && x != h {
                            assert(hashes0.contains(x));
                            let w = choose|w: int|
                                #![trigger hashes0[w]]
                                0 <= w < hashes0.len() && hashes0[w] == x;
                            assert(index.hashes@[w] == x);
                        }
                    }
                }
                if !map0.contains_key(h) {
                    assert(!hashes0.contains(h));
                    assert(index.hashes@.drop_last() =~= hashes0);
                    assert forall|a: int, b: int|
                        0 <= a < index.hashes@.len() && 0 <= b < index.hashes@.len() && a != b
                            implies index.hashes@[a] != index.hashes@[b] by {
                        if a < hashes0.len() && b < hashes0.len() {
                            assert(hashes0[a] == index.hashes@[a]);
                            assert(hashes0[b] == index.hashes@[b]);
                        } else if a < hashes0.len() {
                            assert(hashes0[a] == index.hashes@[a]);
                            assert(hashes0.contains(index.hashes@[a]));
                        } else {
                            assert(hashes0[b] == index.hashes@[b]);
                            assert(hashes0.contains(index.hashes@[b]));
                        }
                    }
                    assert(index.hashes@.no_duplicates());
                }
                // posting lists of other hashes are untouched
                assert forall|x: u64, u: int|
                    x != h implies (#[trigger] index.posting_bit(x, u) <==> index0.posting_bit(
                    x,
                    u,
                )) by {
                    assert(map1.contains_key(x) <==> map0.contains_key(x));
                    if map0.contains_key(x) {
                        assert(map1[x] == map0[x]);
                    }
                }
                assert forall|u: int| #[trigger] index.posting_bit(h, u) <==> (index0.posting_bit(
                    h,
                    u,
                ) || u == i) by {
                    assert(bsx.bit_set(u) <==> bit0(u) || u == i);
                    assert(0 <= i < num_records);
                }
                // characterize the processed prefix of this record's hashes
                assert(hv@.subrange(0, t as int).push(h) =~= hv@.subrange(0, t + 1 as int));
                assert forall|x: u64|
                    #![trigger hv@.subrange(0, t + 1 as int).contains(x)]
                    hv@.subrange(0, t + 1 as int).contains(x) <==> (hv@.subrange(
                    0,
                    t as int,
                ).contains(x) || x == h) by {
                    let s0 = hv@.subrange(0, t as int);
                    assert(hv@.subrange(0, t + 1 as int)[t as int] == h);
                    assert(hv@.subrange(0, t + 1 as int).contains(h));
                    if hv@.subrange(0, t + 1 as int).contains(x) && x != h {
                        let w = choose|w: int|
                            #![trigger hv@.subrange(0, t + 1 as int)[w]]
                            0 <= w < t + 1 && hv@.subrange(0, t + 1 as int)[w] == x;
                        assert(s0[w] == x);
                    }
                    if s0.contains(x) {
                        let w = choose|w: int| #![trigger s0[w]] 0 <= w < t && s0[w] == x;
                        assert(hv@.subrange(0, t + 1 as int)[w] == x);
                    }
                }
                assert(index.posting_bit(h, i as int));
                // re-establish the per-ordinal characterizations
                assert forall|x: u64, u: int|
                    0 <= u < i implies (#[trigger] index.posting_bit(x, u) <==> kmer_hash_set(
                    records@[u].seq@,
                    k,
                    d,
                ).contains(x)) by {
                    assert(index0.posting_bit(x, u) <==> kmer_hash_set(
                        records@[u].seq@,
                        k,
                        d,
                    ).contains(x));
                }
                assert forall|x: u64| #[trigger] index.posting_bit(x, i as int) <==> hv@.subrange(
                    0,
                    t + 1 as int,
                ).contains(x) by {
                    if x != h {
                        assert(index0.posting_bit(x, i as int) <==> hv@.subrange(
                            0,
                            t as int,
                        ).contains(x));
                    }
                }
                assert forall|x: u64, u: int| #[trigger] index.posting_bit(x, u) implies 0 <= u
                    <= i by {
                    if x != h {
                        assert(index0.posting_bit(x, u) ==> 0 <= u <= i);
                    } else {
                        assert(index0.posting_bit(h, u) ==> 0 <= u <= i);
                    }
                }
                assert forall|x: u64| #[trigger] index.contains_hash(x) implies exists|u: int|
                    index.posting_bit(x, u) by {
                    if x == h {
                        assert(index.posting_bit(h, i as int));
                    } else {
                        assert(index0.contains_hash(x));
                        let u = choose|u: int| index0.posting_bit(x, u);
                        assert(index.posting_bit(x, u));
                    }
                }
            }
            t = t + 1;
        }
        proof {
            assert forall|h: u64| #[trigger] index.posting_bit(h, i as int) <==> rset.contains(
                h,
            ) by {
                assert(hv@.subrange(0, hv@.len() as int) =~= hv@);
                if hv@.contains(h) {
                    assert(hv@.to_set().contains(h));
                }
                if rset.contains(h) {
                    assert(hv@.to_set().contains(h));
                    assert(hv@.contains(h));
                }
            }
        }
        ids.push(record.id.clone());
        i = i + 1;
    }
    (index, ids)
}

} // verus!
