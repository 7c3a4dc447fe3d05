//! Laws of the k-mer coder.
//!
//! Strand symmetry, the ambiguous-base gate and downsampling monotonicity,
//! proved against the hash-set model of `kmers`.

use vstd::prelude::*;
use vstd::arithmetic::div_mod::*;
use crate::kmers::{canonical_value, comp_code, ds_limit, kmer_fwd, kmer_hash_set, kmer_rc,
    lemma_kmer_fwd_first, lemma_kmer_rc_first, mix64, nt_code, pow4, valid_base, window_emitted,
    window_valid};

verus! {

/// The complementary base: A <-> T, C <-> G (U complements like T);
/// ambiguous bases stay ambiguous.
pub open spec fn comp_base(b: u8) -> u8 {
    if nt_code(b) == 0 {
        84
    } else if nt_code(b) == 1 {
        71
    } else if nt_code(b) == 2 {
        67
    } else if nt_code(b) == 3 {
        65
    } else {
        78
    }
}

/// The reverse complement of a sequence.
pub open spec fn reverse_complement(s: Seq<u8>) -> Seq<u8> {
    Seq::new(s.len(), |i: int| comp_base(s[s.len() - 1 - i]))
}

/// Reverse-complementing a window commutes with taking windows: the window
/// at `p` of the reverse complement is the reverse complement of the
/// mirrored window.
pub proof fn lemma_revcomp_window(s: Seq<u8>, p: int, k: int)
    requires
        0 <= p,
        0 < k,
        p + k <= s.len(),
    ensures
        reverse_complement(s).subrange(p, p + k) =~= reverse_complement(
            s.subrange(s.len() - k - p, s.len() - p),
        ),
{
    let n = s.len() as int;
    let lhs = reverse_complement(s).subrange(p, p + k);
    let rhs = reverse_complement(s.subrange(n - k - p, n - p));
    assert forall|i: int| 0 <= i < k implies lhs[i] == rhs[i] by {
        assert(lhs[i] == comp_base(s[n - 1 - p - i]));
        assert(rhs[i] == comp_base(s.subrange(n - k - p, n - p)[k - 1 - i]));
        assert(s.subrange(n - k - p, n - p)[k - 1 - i] == s[n - 1 - p - i]);
    }
}

/// The forward packing of a reverse complement is the reverse-complement
/// packing of the original, and vice versa.
pub proof fn lemma_revcomp_swaps_packings(w: Seq<u8>)
    requires
        forall|i: int| 0 <= i < w.len() ==> valid_base(w[i]),
    ensures
        kmer_fwd(reverse_complement(w)) == kmer_rc(w),
        kmer_rc(reverse_complement(w)) == kmer_fwd(w),
    decreases w.len(),
{
    let n = w.len() as int;
    let rc = reverse_complement(w);
    if w.len() == 0 {
        assert(rc =~= Seq::<u8>::empty());
    } else {
        let t = w.drop_first();
        assert(forall|i: int| 0 <= i < t.len() ==> valid_base(t[i]));
        lemma_revcomp_swaps_packings(t);
        assert(rc.drop_last() =~= reverse_complement(t));
        assert(rc.last() == comp_base(w.first()));
        assert(nt_code(comp_base(w.first())) == 3 - nt_code(w.first()));
        assert(comp_code(comp_base(w.first())) == nt_code(w.first()));
        // forward of the reverse complement
        assert(kmer_fwd(rc) == kmer_fwd(reverse_complement(t)) * 4 + nt_code(rc.last()) as nat);
        lemma_kmer_rc_first(w);
        // reverse complement of the reverse complement
        assert(kmer_rc(rc) == comp_code(rc.last()) as nat * pow4((n - 1) as nat) + kmer_rc(
            rc.drop_last(),
        ));
        lemma_kmer_fwd_first(w);
    }
}

/// K-mer strand symmetry: a sequence of unambiguous bases and its reverse
/// complement have exactly the same canonical k-mer hash set.
pub proof fn lemma_strand_symmetry(s: Seq<u8>, k: int, d: u64)
    requires
        0 < k,
        forall|i: int| 0 <= i < s.len() ==> valid_base(s[i]),
    ensures
        kmer_hash_set(reverse_complement(s), k, d) =~= kmer_hash_set(s, k, d),
{
    let n = s.len() as int;
    let rs = reverse_complement(s);
    assert(rs.len() == s.len());
    assert forall|i: int| 0 <= i < rs.len() implies valid_base(rs[i]) by {
        assert(rs[i] == comp_base(s[n - 1 - i]));
    }
    assert forall|h: u64| kmer_hash_set(rs, k, d).contains(h) implies kmer_hash_set(
        s,
        k,
        d,
    ).contains(h) by {
        let p = choose|p: int|
            p + k <= rs.len() && #[trigger] window_emitted(rs, k, d, p) && h == mix64(
                canonical_value(rs.subrange(p, p + k)) as u64,
            );
        let q = n - k - p;
        lemma_revcomp_window(s, p, k);
        let w = s.subrange(q, q + k);
        assert(rs.subrange(p, p + k) == reverse_complement(w));
        assert(forall|i: int| 0 <= i < w.len() ==> valid_base(w[i]));
        lemma_revcomp_swaps_packings(w);
        assert(canonical_value(reverse_complement(w)) == canonical_value(w));
        assert(window_valid(s, q, k));
        assert(window_emitted(s, k, d, q));
    }
    assert forall|h: u64| kmer_hash_set(s, k, d).contains(h) implies kmer_hash_set(
        rs,
        k,
        d,
    ).contains(h) by {
        let q = choose|q: int|
            q + k <= s.len() && #[trigger] window_emitted(s, k, d, q) && h == mix64(
                canonical_value(s.subrange(q, q + k)) as u64,
            );
        let p = n - k - q;
        lemma_revcomp_window(s, p, k);
        let w = s.subrange(q, q + k);
        assert(rs.subrange(p, p + k) == reverse_complement(w));
        assert(forall|i: int| 0 <= i < w.len() ==> valid_base(w[i]));
        lemma_revcomp_swaps_packings(w);
        assert(canonical_value(reverse_complement(w)) == canonical_value(w));
        assert(window_valid(rs, p, k));
        assert(window_emitted(rs, k, d, p));
    }
}

/// Ambiguous bases gate: a sequence with no unambiguous base at all yields
/// the empty hash set, for every k.
pub proof fn lemma_ambiguous_only_empty(s: Seq<u8>, k: int, d: u64)
    requires
        0 < k,
        forall|i: int| 0 <= i < s.len() ==> !valid_base(s[i]),
    ensures
        kmer_hash_set(s, k, d) =~= Set::<u64>::empty(),
{
    assert forall|h: u64| !kmer_hash_set(s, k, d).contains(h) by {
        if kmer_hash_set(s, k, d).contains(h) {
            let p = choose|p: int|
                p + k <= s.len() && #[trigger] window_emitted(s, k, d, p) && h == mix64(
                    canonical_value(s.subrange(p, p + k)) as u64,
                );
            assert(valid_base(s[p]));
        }
    }
}

/// Ambiguous bases gate, insertion half: replacing one base of an
/// unambiguous sequence with an ambiguous one erases exactly the windows
/// that span that position — what remains are the hashes of precisely the
/// emitted windows of the unchanged sequence that do not cover it.
pub proof fn lemma_ambiguous_insertion(s: Seq<u8>, p: int, b: u8, k: int, d: u64)
    requires
        0 < k,
        0 <= p < s.len(),
        forall|i: int| 0 <= i < s.len() ==> valid_base(s[i]),
        !valid_base(b),
    ensures
        kmer_hash_set(s.update(p, b), k, d) =~= Set::new(
            |h: u64|
                exists|q: int|
                    #![trigger window_emitted(s, k, d, q)]
                    q + k <= s.len() && !(q <= p < q + k) && window_emitted(s, k, d, q) && h
                        == mix64(canonical_value(s.subrange(q, q + k)) as u64),
        ),
{
    let s2 = s.update(p, b);
    let surviving = Set::new(
        |h: u64|
            exists|q: int|
                #![trigger window_emitted(s, k, d, q)]
                q + k <= s.len() && !(q <= p < q + k) && window_emitted(s, k, d, q) && h == mix64(
                    canonical_value(s.subrange(q, q + k)) as u64,
                ),
    );
    assert(s2.len() == s.len());
    assert forall|h: u64| kmer_hash_set(s2, k, d).contains(h) implies surviving.contains(h) by {
        let q = choose|q: int|
            q + k <= s2.len() && #[trigger] window_emitted(s2, k, d, q) && h == mix64(
                canonical_value(s2.subrange(q, q + k)) as u64,
            );
        // a window covering the replaced position cannot be all valid
        assert(!(q <= p < q + k)) by {
            if q <= p < q + k {
                assert(valid_base(s2[p]));
            }
        }
        assert(s2.subrange(q, q + k) =~= s.subrange(q, q + k));
        assert(window_valid(s, q, k));
        assert(window_emitted(s, k, d, q));
    }
    assert forall|h: u64| surviving.contains(h) implies kmer_hash_set(s2, k, d).contains(h) by {
        let q = choose|q: int|
            #![trigger window_emitted(s, k, d, q)]
            q + k <= s.len() && !(q <= p < q + k) && window_emitted(s, k, d, q) && h == mix64(
                canonical_value(s.subrange(q, q + k)) as u64,
            );
        assert(s2.subrange(q, q + k) =~= s.subrange(q, q + k));
        assert forall|j: int| q <= j < q + k implies valid_base(s2[j]) by {
            assert(s2[j] == s[j]);
        }
        assert(window_valid(s2, q, k));
        assert(window_emitted(s2, k, d, q));
    }
}

/// Downsampling monotonicity: a larger downsampling factor keeps a subset
/// of the hashes kept by a smaller one.
pub proof fn lemma_downsampling_monotone(s: Seq<u8>, k: int, d1: u64, d2: u64)
    requires
        1 <= d1 <= d2,
    ensures
        kmer_hash_set(s, k, d2).subset_of(kmer_hash_set(s, k, d1)),
{
    assert(ds_limit(d2) <= ds_limit(d1)) by {
        lemma_div_is_ordered_by_denominator(u64::MAX as int, d1 as int, d2 as int);
    }
    assert forall|h: u64| kmer_hash_set(s, k, d2).contains(h) implies kmer_hash_set(
        s,
        k,
        d1,
    ).contains(h) by {
        let p = choose|p: int|
            p + k <= s.len() && #[trigger] window_emitted(s, k, d2, p) && h == mix64(
                canonical_value(s.subrange(p, p + k)) as u64,
            );
        assert(window_emitted(s, k, d1, p));
    }
}

} // verus!
