//! Packed fixed-capacity bit vector.
//!
//! A `KmerBitSet` of capacity C stores C bits in ceil(C/64) machine words.
//! Bit i of the set is bit (i % 64) of word (i / 64). Bits at positions C
//! and above (the padding of the last word) are always clear.

use vstd::prelude::*;
use vstd::arithmetic::div_mod::*;
use vstd::std_specs::bits::*;

verus! {

broadcast use vstd::std_specs::bits::group_bits_axioms;

/// Bit `j` of the word `w` is set (for 0 <= j < 64).
pub open spec fn word_bit(w: u64, j: int) -> bool {
    (w >> (j as u64)) & 1u64 == 1u64
}

/// Bit `i` of the word sequence `words`, in packed order.
pub open spec fn seq_bit(words: Seq<u64>, i: int) -> bool {
    &&& 0 <= i < words.len() * 64
    &&& word_bit(words[i / 64], i % 64)
}

/// Error raised by the bounds-checked bit setter.
#[derive(Debug)]
pub enum BitSetError {
    /// The requested index does not fit in the capacity.
    OutOfBoundsError { index: usize, capacity: usize },
}

/// Packed bit vector with a fixed capacity in bits.
#[derive(Debug)]
pub struct KmerBitSet {
    data: Vec<u64>,
    capacity: usize,
}

impl KmerBitSet {
    /// The capacity in bits.
    pub closed spec fn spec_capacity(&self) -> nat {
        self.capacity as nat
    }

    /// The backing words.
    pub closed spec fn spec_words(&self) -> Seq<u64> {
        self.data@
    }

    /// Bit `i` is set. Only positions below the capacity can be set.
    pub open spec fn bit_set(&self, i: int) -> bool {
        &&& 0 <= i < self.spec_capacity()
        &&& seq_bit(self.spec_words(), i)
    }

    /// Structural invariant: exactly ceil(capacity/64) words, and all
    /// padding bits above the capacity are clear.
    pub open spec fn wf(&self) -> bool {
        &&& self.spec_words().len() * 64 < usize::MAX
        &&& self.spec_words().len() == (self.spec_capacity() + 63) / 64
        &&& forall|i: int|
            self.spec_capacity() <= i < self.spec_words().len() * 64 ==> !seq_bit(
                self.spec_words(),
                i,
            )
    }

    /// Create an all-zero bit set able to hold `capacity` bits.
    pub fn new(capacity: usize) -> (r: Self)
        requires
            capacity + 63 < usize::MAX,
        ensures
            r.wf(),
            r.spec_capacity() == capacity,
            forall|i: int| !r.bit_set(i),
    {
        // Each word stores up to 64 bits; round up so no bit is lost.
        let num_buckets = capacity / 64 + if capacity % 64 != 0 {
            1
        } else {
            0
        };
        proof {
            lemma_fundamental_div_mod(capacity as int, 64);
            lemma_fundamental_div_mod(capacity as int + 63, 64);
        }
        let mut data: Vec<u64> = Vec::new();
        let mut w: usize = 0;
        while w < num_buckets
            invariant
                w <= num_buckets,
                data@.len() == w,
                forall|t: int| 0 <= t < w ==> data@[t] == 0u64,
            decreases num_buckets - w,
        {
            data.push(0u64);
            w = w + 1;
        }
        let r = Self { data, capacity };
        proof {
            assert forall|i: int| 0 <= i < r.spec_words().len() * 64 implies !seq_bit(
                r.spec_words(),
                i,
            ) by {
                lemma_fundamental_div_mod(i, 64);
                assert(0 <= i / 64 < r.spec_words().len()) by (nonlinear_arith)
                    requires
                        0 <= i < r.spec_words().len() * 64,
                ;
                assert(r.spec_words()[i / 64] == 0u64);
                lemma_zero_word((i % 64) as u64);
            }
            assert(num_buckets * 64 < usize::MAX) by (nonlinear_arith)
                requires
                    num_buckets <= (capacity as int + 63) / 64,
                    capacity + 63 < usize::MAX,
                    num_buckets >= 0,
            ;
        }
        r
    }

    /// Set bit `i` without a run-time bounds check; the bound is a
    /// precondition instead.
    pub fn set_unchecked(&mut self, i: usize)
        requires
            old(self).wf(),
            i < old(self).spec_capacity(),
        ensures
            final(self).wf(),
            final(self).spec_capacity() == old(self).spec_capacity(),
            forall|j: int| final(self).bit_set(j) <==> old(self).bit_set(j) || j == i,
    {
        let bucket_index = i / 64;
        let word_index = i % 64;
        proof {
            lemma_fundamental_div_mod(i as int, 64);
            lemma_fundamental_div_mod(self.capacity as int + 63, 64);
            assert(i / 64 < self.data@.len()) by (nonlinear_arith)
                requires
                    0 <= i as int,
                    i < self.capacity,
                    self.capacity <= self.data@.len() * 64,
            ;
        }
        let w = self.data[bucket_index];
        let neww = w | (1u64 << (word_index as u64));
        self.data.set(bucket_index, neww);
        proof {
            let words0 = old(self).spec_words();
            let words1 = self.spec_words();
            let bi = bucket_index as int;
            let b = word_index as u64;
            assert forall|j: int| 0 <= j < words1.len() * 64 implies (seq_bit(words1, j) <==> (
            seq_bit(words0, j) || j == i)) by {
                lemma_fundamental_div_mod(j, 64);
                assert(0 <= j / 64 < words1.len()) by (nonlinear_arith)
                    requires
                        0 <= j < words1.len() * 64,
                ;
                if j / 64 == bi {
                    lemma_set_bit_effect(w, b, (j % 64) as u64);
                    if j % 64 == b {
                        assert(j == i);
                    } else {
                        assert(j != i);
                    }
                } else {
                    assert(words1[j / 64] == words0[j / 64]);
                    assert(j != i);
                }
            }
        }
    }

    /// Set bit `i`, failing when `i` does not fit in the capacity.
    pub fn set(&mut self, i: usize) -> (r: Result<(), BitSetError>)
        requires
            old(self).wf(),
        ensures
            final(self).wf(),
            final(self).spec_capacity() == old(self).spec_capacity(),
            i < old(self).spec_capacity() ==> r is Ok && (forall|j: int|
                final(self).bit_set(j) <==> old(self).bit_set(j) || j == i),
            i >= old(self).spec_capacity() ==> (r matches Err(
                BitSetError::OutOfBoundsError { index, capacity },
            ) && index == i && capacity == old(self).spec_capacity() && *final(self) == *old(
                self,
            )),
    {
        if i >= self.capacity {
            return Err(
                BitSetError::OutOfBoundsError { index: i, capacity: self.capacity },
            );
        }
        self.set_unchecked(i);
        Ok(())
    }

    /// The backing words, for serialization.
    pub fn words(&self) -> (r: &Vec<u64>)
        ensures
            r@ == self.spec_words(),
    {
        &self.data
    }

    /// The capacity in bits, for serialization.
    pub fn capacity(&self) -> (r: usize)
        ensures
            r == self.spec_capacity(),
    {
        self.capacity
    }

    /// Rebuild a bit set from its capacity and backing words, validating
    /// the structural invariant: right word count and clear padding.
    pub fn from_words(capacity: usize, words: Vec<u64>) -> (r: Option<KmerBitSet>)
        requires
            capacity + 63 < usize::MAX,
        ensures
            match r {
                Some(bs) => bs.wf() && bs.spec_capacity() == capacity && bs.spec_words()
                    == words@,
                None => true,
            },
            (exists|bs: KmerBitSet|
                bs.wf() && bs.spec_capacity() == capacity && bs.spec_words() == words@) ==> r
                is Some,
    {
        let need = capacity / 64 + if capacity % 64 != 0 {
            1
        } else {
            0
        };
        proof {
            lemma_fundamental_div_mod(capacity as int, 64);
            lemma_fundamental_div_mod(capacity as int + 63, 64);
        }
        if words.len() != need {
            return None;
        }
        let pad_ok = if capacity % 64 == 0 {
            true
        } else {
            let last = words[words.len() - 1];
            (last >> ((capacity % 64) as u64)) == 0
        };
        let r = KmerBitSet { data: words, capacity };
        proof {
            let ws = r.spec_words();
            let cap = capacity as int;
            if capacity % 64 == 0 {
                assert forall|i: int| cap <= i < ws.len() * 64 implies !seq_bit(ws, i) by {
                    lemma_fundamental_div_mod(i, 64);
                    assert(0 <= i / 64) by (nonlinear_arith)
                        requires
                            i >= 0,
                    ;
                    assert(i / 64 >= ws.len()) by (nonlinear_arith)
                        requires
                            i >= ws.len() * 64,
                            i == 64 * (i / 64) + i % 64,
                            0 <= i % 64 < 64,
                    ;
                }
                assert(r.wf());
            } else {
                let last = ws[ws.len() - 1];
                let c = (cap % 64) as u64;
                if (last >> c) == 0 {
                    assert forall|i: int| cap <= i < ws.len() * 64 implies !seq_bit(ws, i) by {
                        lemma_fundamental_div_mod(i, 64);
                        lemma_fundamental_div_mod(cap, 64);
                        assert(i / 64 == ws.len() - 1) by (nonlinear_arith)
                            requires
                                cap <= i < ws.len() * 64,
                                ws.len() == (cap + 63) / 64,
                                i == 64 * (i / 64) + i % 64,
                                0 <= i % 64 < 64,
                                cap == 64 * (cap / 64) + cap % 64,
                                0 < cap % 64 < 64,
                                (cap + 63) / 64 == cap / 64 + 1,
                        ;
                        assert(i % 64 >= cap % 64) by (nonlinear_arith)
                            requires
                                cap <= i,
                                i / 64 == ws.len() - 1,
                                ws.len() == cap / 64 + 1,
                                i == 64 * (i / 64) + i % 64,
                                cap == 64 * (cap / 64) + cap % 64,
                        ;
                        let j = (i % 64) as u64;
                        assert((last >> c) == 0 && c <= j < 64 ==> (last >> j) & 1u64 == 0u64)
                            by (bit_vector);
                    }
                    assert(r.wf());
                } else {
                    // some padding bit is set: no well-formed bit set matches
                    let t = u64_trailing_zeros(last >> c) as u64;
                    assert((last >> c) != 0 ==> ((last >> c) >> (u64_trailing_zeros(last >> c) as u64)) & 1u64 == 1u64);
                    assert forall|bs: KmerBitSet|
                        bs.spec_capacity() == capacity && bs.spec_words() == ws implies !bs.wf() by {
                        let j = c + t;
                        assert(t < 64);
                        assert(((last >> c) >> t) & 1u64 == 1u64 && t < 64 && c < 64 && (last >> c)
                            != 0 ==> c + t < 64 && (last >> ((c + t) as u64)) & 1u64 == 1u64)
                            by (bit_vector);
                        let i = (ws.len() - 1) * 64 + j;
                        lemma_fundamental_div_mod_converse(i as int, 64, ws.len() - 1, j as int);
                        assert(seq_bit(ws, i as int));
                        assert(i >= cap) by (nonlinear_arith)
                            requires
                                i == (ws.len() - 1) * 64 + j,
                                j >= cap % 64,
                                ws.len() == cap / 64 + 1,
                                cap == 64 * (cap / 64) + cap % 64,
                        ;
                        assert(i < ws.len() * 64) by (nonlinear_arith)
                            requires
                                i == (ws.len() - 1) * 64 + j,
                                j < 64,
                        ;
                    }
                }
            }
        }
        if pad_ok {
            Some(r)
        } else {
            None
        }
    }

    /// No bit at all is set.
    pub fn is_empty(&self) -> (r: bool)
        requires
            self.wf(),
        ensures
            r <==> (forall|j: int| !self.bit_set(j)),
    {
        let n = self.data.len();
        let mut bi: usize = 0;
        while bi < n
            invariant
                self.wf(),
                n == self.data@.len(),
                bi <= n,
                forall|t: int| 0 <= t < bi ==> self.data@[t] == 0u64,
            decreases n - bi,
        {
            let w = self.data[bi];
            if w != 0 {
                let t = w.trailing_zeros() as usize;
                proof {
                    let tz = u64_trailing_zeros(w) as int;
                    let j0 = bi * 64 + tz;
                    lemma_fundamental_div_mod_converse(j0, 64, bi as int, tz);
                    assert(word_bit(w, tz));
                    assert(j0 < self.data@.len() * 64) by (nonlinear_arith)
                        requires
                            0 <= tz < 64,
                            0 <= (bi as int) < self.data@.len(),
                            j0 == bi * 64 + tz,
                    ;
                    assert(seq_bit(self.spec_words(), j0));
                    assert(j0 < self.spec_capacity());
                    assert(self.bit_set(j0));
                }
                return false;
            }
            bi = bi + 1;
        }
        proof {
            assert forall|j: int| !self.bit_set(j) by {
                if 0 <= j < self.spec_words().len() * 64 {
                    lemma_fundamental_div_mod(j, 64);
                    assert(0 <= j / 64 < self.spec_words().len()) by (nonlinear_arith)
                        requires
                            0 <= j < self.spec_words().len() * 64,
                    ;
                    assert(self.spec_words()[j / 64] == 0u64);
                    lemma_zero_word((j % 64) as u64);
                }
            }
        }
        true
    }
}

impl KmerBitSet {
    /// Ascending indices of all set bits.
    pub fn ones(&mut self) -> (r: Vec<usize>)
        requires
            old(self).wf(),
        ensures
            *final(self) == *old(self),
            forall|a: int, b: int| 0 <= a < b < r@.len() ==> r@[a] < r@[b],
            forall|t: int| 0 <= t < r@.len() ==> old(self).bit_set(#[trigger] r@[t] as int),
            forall|j: int| old(self).bit_set(j) ==> r@.contains(j as usize),
    {
        let ghost words = self.spec_words();
        let mut r: Vec<usize> = Vec::new();
        let n = self.data.len();
        let mut bi: usize = 0;
        while bi < n
            invariant
                self.wf(),
                *self == *old(self),
                words == self.spec_words(),
                n == words.len(),
                bi <= n,
                forall|a: int, b: int| 0 <= a < b < r@.len() ==> r@[a] < r@[b],
                forall|t: int| 0 <= t < r@.len() ==> seq_bit(words, #[trigger] r@[t] as int),
                forall|t: int| 0 <= t < r@.len() ==> #[trigger] r@[t] < bi * 64,
                forall|j: int|
                    0 <= j < bi * 64 && seq_bit(words, j) ==> r@.contains(j as usize),
            decreases n - bi,
        {
            let mut d = self.data[bi];
            while d != 0
                invariant
                    self.wf(),
                    *self == *old(self),
                    words == self.spec_words(),
                    n == words.len(),
                    bi < n,
                    forall|u: int|
                        0 <= u < 64 && word_bit(d, u) ==> word_bit(words[bi as int], u),
                    forall|a: int, b: int| 0 <= a < b < r@.len() ==> r@[a] < r@[b],
                    forall|t: int| 0 <= t < r@.len() ==> seq_bit(words, #[trigger] r@[t] as int),
                    forall|t: int| 0 <= t < r@.len() ==> #[trigger] r@[t] < bi * 64 + 64,
                    forall|t: int, u: int|
                        #![trigger r@[t], word_bit(d, u)]
                        0 <= t < r@.len() && 0 <= u < 64 && word_bit(d, u) ==> r@[t] < bi * 64
                            + u,
                    forall|j: int|
                        0 <= j < bi * 64 && seq_bit(words, j) ==> r@.contains(j as usize),
                    forall|j: int|
                        #![trigger seq_bit(words, j)]
                        0 <= j < words.len() * 64 && j / 64 == bi && seq_bit(words, j)
                            && !word_bit(d, j % 64) ==> r@.contains(j as usize),
                decreases d,
            {
                let t = d.trailing_zeros() as usize;
                let v = bi * 64 + t;
                proof {
                    let tz = u64_trailing_zeros(d) as int;
                    assert(tz < 64);
                    assert((d >> (u64_trailing_zeros(d) as u64)) & 1u64 == 1u64);
                    assert((tz as u64) == u64_trailing_zeros(d) as u64);
                    assert(word_bit(d, tz));
                    lemma_fundamental_div_mod_converse(v as int, 64, bi as int, tz);
                    assert((bi + 1) * 64 <= n * 64) by (nonlinear_arith)
                        requires
                            bi < n,
                    ;
                    assert(seq_bit(words, v as int));
                }
                let ghost r0 = r@;
                r.push(v);
                let d0 = d;
                d = d & (d - 1);
                proof {
                    let tz = u64_trailing_zeros(d0) as u64;
                    assert(d0 << ((64 - tz) as u64) == 0);
                    assert forall|u: int| 0 <= u < 64 implies (word_bit(d, u) <==> (word_bit(
                        d0,
                        u,
                    ) && u != tz)) by {
                        lemma_clear_lowest(d0, tz, u as u64);
                    }
                    assert(word_bit(d0, tz as int));
                    assert(!word_bit(d, tz as int));
                    assert(d < d0) by (bit_vector)
                        requires
                            d == d0 & (d0 - 1) as u64 && d0 != 0,
                    ;
                    // every remaining bit of d is above tz
                    assert forall|u: int| 0 <= u < 64 && word_bit(d, u) implies u > tz by {
                        if u < tz {
                            assert((d0 >> (u as u64)) & 1u64 == 0u64);
                        }
                    }
                    // the new element keeps the vector sorted
                    assert forall|a: int, b: int| 0 <= a < b < r@.len() implies r@[a] < r@[b] by {
                        if b == r@.len() - 1 {
                            assert(r0[a] < bi * 64 + tz);
                        }
                    }
                    assert forall|j: int|
                        #![trigger seq_bit(words, j)]
                        0 <= j < words.len() * 64 && j / 64 == bi && seq_bit(words, j)
                            && !word_bit(d, j % 64) implies r@.contains(j as usize) by {
                        lemma_fundamental_div_mod(j, 64);
                        if j % 64 == tz {
                            assert(j == v);
                            assert(r@[r@.len() - 1] == v as usize);
                        } else {
                            assert(!word_bit(d0, j % 64));
                            assert(r0.contains(j as usize));
                            let w = choose|w: int| 0 <= w < r0.len() && r0[w] == j as usize;
                            assert(r@[w] == j as usize);
                        }
                    }
                    assert forall|j: int|
                        0 <= j < bi * 64 && seq_bit(words, j) implies r@.contains(
                        j as usize,
                    ) by {
                        assert(r0.contains(j as usize));
                        let w = choose|w: int| 0 <= w < r0.len() && r0[w] == j as usize;
                        assert(r@[w] == j as usize);
                    }
                }
            }
            proof {
                assert forall|j: int|
                    0 <= j < (bi + 1) * 64 && seq_bit(words, j) implies r@.contains(
                    j as usize,
                ) by {
                    if j >= bi * 64 {
                        lemma_fundamental_div_mod(j, 64);
                        assert(j / 64 == bi) by (nonlinear_arith)
                            requires
                                bi * 64 <= j < (bi + 1) * 64,
                                j == 64 * (j / 64) + (j % 64),
                                0 <= j % 64 < 64,
                        ;
                        lemma_zero_word((j % 64) as u64);
                        assert(!word_bit(d, j % 64));
                    }
                }
                assert(forall|t: int|
                    0 <= t < r@.len() ==> #[trigger] r@[t] < (bi + 1) * 64);
            }
            bi = bi + 1;
        }
        proof {
            assert forall|j: int| old(self).bit_set(j) implies r@.contains(j as usize) by {
                assert(j < self.spec_capacity());
                lemma_fundamental_div_mod(self.capacity as int + 63, 64);
                assert(seq_bit(words, j));
                assert(j < n * 64);
            }
            assert forall|t: int| 0 <= t < r@.len() implies old(self).bit_set(
                #[trigger] r@[t] as int,
            ) by {
                // a set bit in the padding would contradict well-formedness
                assert(seq_bit(words, r@[t] as int));
                if r@[t] >= self.spec_capacity() {
                    assert(!seq_bit(words, r@[t] as int));
                }
            }
        }
        r
    }

    /// A restartable iterator over the indices of all set bits, ascending.
    pub fn ones_by_iterator<'a>(&'a self) -> (r: GetOnesIterator<'a>)
        requires
            self.wf(),
        ensures
            r.wf(),
            r.spec_data() == self.spec_words(),
            r.spec_cap() == self.spec_capacity(),
            r.remaining() =~= Set::new(|i: int| self.bit_set(i)),
            forall|i: int| r.remaining().contains(i) <==> self.bit_set(i),
    {
        let current_word = if self.data.len() > 0 {
            self.data[0]
        } else {
            0u64
        };
        let r = GetOnesIterator {
            data: self.data.as_slice(),
            capacity: self.capacity,
            bucket_index: 0,
            current_word,
        };
        proof {
            assert forall|i: int| r.remaining().contains(i) <==> self.bit_set(i) by {
                if 0 <= i < self.spec_words().len() * 64 {
                    lemma_fundamental_div_mod(i, 64);
                    assert(0 <= i / 64 < self.spec_words().len()) by (nonlinear_arith)
                        requires
                            0 <= i < self.spec_words().len() * 64,
                    ;
                }
                if self.bit_set(i) {
                    lemma_fundamental_div_mod(self.capacity as int + 63, 64);
                }
            }
        }
        r
    }
}

/// Lazy ascending iterator over the set bits of a packed bit vector.
pub struct GetOnesIterator<'a> {
    data: &'a [u64],
    capacity: usize,
    bucket_index: usize,
    current_word: u64,
}

/// The indices strictly below `cap` that an iterator positioned at word
/// `bi`, with still-unconsumed word bits `d`, has yet to produce.
pub open spec fn pending(words: Seq<u64>, bi: int, d: u64, cap: int) -> Set<int> {
    Set::new(
        |i: int|
            0 <= i < cap && i < words.len() * 64 && ((i / 64 == bi && word_bit(d, i % 64)) || (i
                / 64 > bi && word_bit(words[i / 64], i % 64))),
    )
}

impl<'a> GetOnesIterator<'a> {
    /// The words this iterator walks.
    pub closed spec fn spec_data(&self) -> Seq<u64> {
        self.data@
    }

    /// The capacity bound of the underlying bit set.
    pub closed spec fn spec_cap(&self) -> nat {
        self.capacity as nat
    }

    /// The set-bit indices not yet produced.
    pub closed spec fn remaining(&self) -> Set<int> {
        pending(
            self.data@,
            self.bucket_index as int,
            self.current_word,
            self.capacity as int,
        )
    }

    /// Internal consistency of the cursor.
    pub closed spec fn wf(&self) -> bool {
        &&& self.data@.len() * 64 <= usize::MAX
        &&& (self.bucket_index < self.data@.len() || (self.data@.len() == 0
            && self.bucket_index == 0))
        &&& (self.bucket_index < self.data@.len() ==> forall|u: int|
            0 <= u < 64 && word_bit(self.current_word, u) ==> word_bit(
                self.data@[self.bucket_index as int],
                u,
            ))
        &&& (self.bucket_index >= self.data@.len() ==> self.current_word == 0)
    }

    /// Produce the smallest not-yet-produced set-bit index, or `None` once
    /// no index below the capacity is left.
    pub fn next(&mut self) -> (r: Option<usize>)
        requires
            old(self).wf(),
        ensures
            final(self).wf(),
            final(self).spec_data() == old(self).spec_data(),
            final(self).spec_cap() == old(self).spec_cap(),
            match r {
                None => old(self).remaining().is_empty() && final(self).remaining().is_empty(),
                Some(idx) => {
                    &&& old(self).remaining().contains(idx as int)
                    &&& forall|j: int| old(self).remaining().contains(j) ==> idx <= j
                    &&& final(self).remaining() == old(self).remaining().remove(idx as int)
                    &&& idx < old(self).spec_cap()
                },
            },
    {
        let ghost words = self.data@;
        let ghost rem0 = self.remaining();
        loop
            invariant
                self.wf(),
                words == self.data@,
                words == old(self).spec_data(),
                self.capacity == old(self).spec_cap(),
                rem0 == old(self).remaining(),
                self.remaining() == rem0,
            ensures
                self.wf(),
                words == self.data@,
                words == old(self).spec_data(),
                self.capacity == old(self).spec_cap(),
                rem0 == old(self).remaining(),
                self.current_word != 0,
                self.bucket_index < words.len(),
                self.remaining() == rem0,
            decreases words.len() - self.bucket_index,
        {
            if self.current_word != 0 {
                break ;
            }
            proof {
                // an empty cursor word contributes nothing
                assert forall|i: int| rem0.contains(i) implies i / 64
                    > self.bucket_index as int by {
                    lemma_zero_word((i % 64) as u64);
                }
            }
            if self.bucket_index + 1 >= self.data.len() {
                proof {
                    assert forall|i: int| !rem0.contains(i) by {
                        if rem0.contains(i) {
                            lemma_fundamental_div_mod(i, 64);
                            assert(i / 64 < words.len()) by (nonlinear_arith)
                                requires
                                    0 <= i < words.len() * 64,
                                    i == 64 * (i / 64) + (i % 64),
                                    0 <= i % 64 < 64,
                            ;
                        }
                    }
                    assert(rem0.is_empty());
                }
                return None;
            }
            let ghost bi0 = self.bucket_index as int;
            self.bucket_index = self.bucket_index + 1;
            self.current_word = self.data[self.bucket_index];
            proof {
                assert forall|i: int| pending(words, bi0 + 1, self.current_word, self.capacity as int).contains(i)
                    <==> rem0.contains(i) by {
                    if 0 <= i < words.len() * 64 {
                        lemma_fundamental_div_mod(i, 64);
                        lemma_zero_word((i % 64) as u64);
                    }
                }
                assert(pending(words, bi0 + 1, self.current_word, self.capacity as int) =~= rem0);
            }
        }
        // the cursor word has a set bit: its lowest one is the next index
        let index = self.current_word.trailing_zeros() as usize;
        let global_index = self.bucket_index * 64 + index;
        proof {
            let tz = u64_trailing_zeros(self.current_word) as int;
            assert(tz < 64);
            assert((self.current_word >> (u64_trailing_zeros(self.current_word) as u64)) & 1u64
                == 1u64);
            assert((tz as u64) == u64_trailing_zeros(self.current_word) as u64);
            assert(word_bit(self.current_word, tz));
            assert(self.bucket_index * 64 + tz < words.len() * 64) by (nonlinear_arith)
                requires
                    (self.bucket_index as int) < words.len(),
                    0 <= tz < 64,
            ;
            lemma_fundamental_div_mod_converse(global_index as int, 64, self.bucket_index as int, tz);
        }
        if global_index >= self.capacity {
            proof {
                let tz = u64_trailing_zeros(self.current_word) as int;
                assert forall|i: int| !rem0.contains(i) by {
                    if rem0.contains(i) {
                        lemma_fundamental_div_mod(i, 64);
                        if i / 64 == self.bucket_index as int {
                            if i % 64 < tz {
                                assert((self.current_word >> ((i % 64) as u64)) & 1u64 == 0u64);
                            }
                            assert(i % 64 >= tz);
                            assert(i >= global_index);
                        } else {
                            assert(i >= (self.bucket_index + 1) * 64) by (nonlinear_arith)
                                requires
                                    i == 64 * (i / 64) + (i % 64),
                                    i / 64 > self.bucket_index as int,
                                    0 <= i % 64,
                            ;
                        }
                    }
                }
                assert(rem0.is_empty());
            }
            return None;
        }
        let ghost d0 = self.current_word;
        self.current_word = self.current_word & (self.current_word - 1);
        proof {
            let tz = u64_trailing_zeros(d0) as u64;
            assert(d0 << ((64 - tz) as u64) == 0);
            assert forall|u: int| 0 <= u < 64 implies (word_bit(self.current_word, u) <==> (
            word_bit(d0, u) && u != tz)) by {
                lemma_clear_lowest(d0, tz, u as u64);
            }
            // the produced index is the least remaining one
            assert forall|j: int| rem0.contains(j) implies global_index <= j by {
                lemma_fundamental_div_mod(j, 64);
                if j / 64 == self.bucket_index as int {
                    if j % 64 < tz {
                        assert((d0 >> ((j % 64) as u64)) & 1u64 == 0u64);
                    }
                } else {
                    assert(j >= (self.bucket_index + 1) * 64) by (nonlinear_arith)
                        requires
                            j == 64 * (j / 64) + (j % 64),
                            j / 64 > self.bucket_index as int,
                            0 <= j % 64,
                    ;
                }
            }
            assert(rem0.contains(global_index as int));
            assert forall|i: int| self.remaining().contains(i) <==> rem0.remove(
                global_index as int,
            ).contains(i) by {
                if 0 <= i < words.len() * 64 {
                    lemma_fundamental_div_mod(i, 64);
                    if i / 64 == self.bucket_index as int && i % 64 == tz as int {
                        assert(i == global_index);
                    }
                }
            }
            assert(self.remaining() =~= rem0.remove(global_index as int));
            assert forall|u: int|
                0 <= u < 64 && word_bit(self.current_word, u) implies word_bit(
                words[self.bucket_index as int],
                u,
            ) by {
                assert(word_bit(d0, u));
            }
            assert(self.wf());
        }
        Some(global_index)
    }
}

/// The set of still-pending indices is finite (it lies within [0, cap)).
pub proof fn lemma_pending_finite(words: Seq<u64>, bi: int, d: u64, cap: int)
    ensures
        pending(words, bi, d, cap).finite(),
{
    if cap <= 0 {
        assert(pending(words, bi, d, cap) =~= Set::<int>::empty());
    } else {
        vstd::set_lib::lemma_int_range(0, cap);
        assert(pending(words, bi, d, cap).subset_of(vstd::set_lib::set_int_range(0, cap)));
        vstd::set_lib::lemma_len_subset(
            pending(words, bi, d, cap),
            vstd::set_lib::set_int_range(0, cap),
        );
    }
}

/// The set of indices an iterator has yet to produce is finite.
pub proof fn lemma_remaining_finite(it: &GetOnesIterator<'_>)
    ensures
        it.remaining().finite(),
{
    lemma_pending_finite(it.data@, it.bucket_index as int, it.current_word, it.capacity as int);
}

/// Clearing the lowest set bit (`d & (d - 1)`) removes exactly that bit.
proof fn lemma_clear_lowest(d: u64, t: u64, j: u64)
    by (bit_vector)
    requires
        t < 64,
        (d >> t) & 1u64 == 1u64,
        d << ((64 - t) as u64) == 0,
    ensures
        (((d & (d - 1) as u64) >> j) & 1u64 == 1u64) <==> ((d >> j) & 1u64 == 1u64 && j != t),
{
}

/// No bit of the zero word is set.
proof fn lemma_zero_word(j: u64)
    by (bit_vector)
    ensures
        (0u64 >> j) & 1u64 == 0u64,
{
}

/// Setting one bit by or-ing a one-hot word changes that bit and no other.
proof fn lemma_set_bit_effect(w: u64, b: u64, j: u64)
    by (bit_vector)
    requires
        b < 64,
        j < 64,
    ensures
        ((w | (1u64 << b)) >> j) & 1u64 == 1u64 <==> ((w >> j) & 1u64 == 1u64 || j == b),
{
}

} // verus!
