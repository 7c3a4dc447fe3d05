//! Canonical k-mer hashing.
//!
//! A nucleotide sequence is decomposed into its k-length windows. Each window
//! that consists entirely of unambiguous bases is packed into a 2-bit-per-base
//! integer, in both forward and reverse-complement orientation; the smaller of
//! the two values is the canonical k-mer value. Canonical values that survive
//! fractional downsampling are passed through a fixed 64-bit integer mixer and
//! collected into a hash set.

use vstd::prelude::*;
use std::collections::HashSet;
use vstd::arithmetic::power2::*;
use vstd::arithmetic::div_mod::*;
use vstd::arithmetic::mul::*;
use vstd::bits::*;
use crate::utils::{Config, valid_kmer_params};

verus! {

/// 2-bit code of a nucleotide byte: A/a -> 0, C/c -> 1, G/g -> 2,
/// T/t/U/u -> 3; every other byte is ambiguous and maps to 4.
pub open spec fn nt_code(b: u8) -> u8 {
    if b == 65 || b == 97 {
        0
    } else if b == 67 || b == 99 {
        1
    } else if b == 71 || b == 103 {
        2
    } else if b == 84 || b == 116 || b == 85 || b == 117 {
        3
    } else {
        4
    }
}

/// A base is valid when it is one of A, C, G, T (or U), in either case.
pub open spec fn valid_base(b: u8) -> bool {
    nt_code(b) < 4
}

/// 2-bit code of the complement base; ambiguous bases stay ambiguous.
pub open spec fn comp_code(b: u8) -> u8 {
    if nt_code(b) < 4 {
        (3 - nt_code(b)) as u8
    } else {
        4
    }
}

/// Map a nucleotide byte to its 2-bit code (4 for ambiguous bases).
pub fn nt_code_of(b: u8) -> (c: u8)
    ensures
        c == nt_code(b),
{
    if b == 65 || b == 97 {
        0
    } else if b == 67 || b == 99 {
        1
    } else if b == 71 || b == 103 {
        2
    } else if b == 84 || b == 116 || b == 85 || b == 117 {
        3
    } else {
        4
    }
}

/// 4 to the n-th power, the number of 2-bit-packed strings of length n.
pub open spec fn pow4(n: nat) -> nat {
    pow2(2 * n)
}

/// Forward 2-bit packing of a window: the first base occupies the two
/// highest bit positions, the last base the two lowest.
pub open spec fn kmer_fwd(s: Seq<u8>) -> nat
    decreases s.len(),
{
    if s.len() == 0 {
        0
    } else {
        kmer_fwd(s.drop_last()) * 4 + nt_code(s.last()) as nat
    }
}

/// 2-bit packing of the reverse complement of a window.
pub open spec fn kmer_rc(s: Seq<u8>) -> nat
    decreases s.len(),
{
    if s.len() == 0 {
        0
    } else {
        comp_code(s.last()) as nat * pow4((s.len() - 1) as nat) + kmer_rc(s.drop_last())
    }
}

/// The canonical value of a window: the smaller of its forward and
/// reverse-complement packings, so both strands of a k-mer agree on it.
pub open spec fn canonical_value(w: Seq<u8>) -> nat {
    if kmer_fwd(w) <= kmer_rc(w) {
        kmer_fwd(w)
    } else {
        kmer_rc(w)
    }
}

/// All bases of the k-window starting at `p` are valid.
pub open spec fn window_valid(s: Seq<u8>, p: int, k: int) -> bool {
    &&& 0 <= p
    &&& p + k <= s.len()
    &&& forall|j: int| p <= j < p + k ==> valid_base(s[j])
}

/// Largest canonical value kept under downsampling factor `d`.
pub open spec fn ds_limit(d: u64) -> nat {
    u64::MAX as nat / d as nat
}

/// The k-window starting at `p` is valid and survives downsampling.
pub open spec fn window_emitted(s: Seq<u8>, k: int, d: u64, p: int) -> bool {
    &&& window_valid(s, p, k)
    &&& canonical_value(s.subrange(p, p + k)) <= ds_limit(d)
}

/// Hashes of all emitted k-windows that end at or before position `n`.
pub open spec fn hashes_upto(s: Seq<u8>, k: int, d: u64, n: int) -> Set<u64> {
    Set::new(
        |h: u64|
            exists|p: int|
                #![trigger window_emitted(s, k, d, p)]
                p + k <= n && window_emitted(s, k, d, p) && h == mix64(
                    canonical_value(s.subrange(p, p + k)) as u64,
                ),
    )
}

/// The set of canonical k-mer hashes drawn from `s` with parameters (k, d).
pub open spec fn kmer_hash_set(s: Seq<u8>, k: int, d: u64) -> Set<u64> {
    hashes_upto(s, k, d, s.len() as int)
}

/// Every sequence of valid bases packs forward into a value below 4^len.
pub proof fn lemma_kmer_fwd_bound(s: Seq<u8>)
    requires
        forall|j: int| 0 <= j < s.len() ==> valid_base(s[j]),
    ensures
        kmer_fwd(s) < pow4(s.len()),
    decreases s.len(),
{
    if s.len() == 0 {
        assert(pow4(0) == 1) by {
            lemma2_to64();
        }
    } else {
        lemma_kmer_fwd_bound(s.drop_last());
        assert(pow4(s.len()) == pow4((s.len() - 1) as nat) * 4) by {
            lemma_pow2_adds(2 * (s.len() - 1) as nat, 2);
            lemma2_to64();
        }
        lemma_mul_inequality(
            kmer_fwd(s.drop_last()) as int + 1,
            pow4((s.len() - 1) as nat) as int,
            4,
        );
    }
}

/// Every sequence of valid bases packs in reverse complement into a value
/// below 4^len.
pub proof fn lemma_kmer_rc_bound(s: Seq<u8>)
    requires
        forall|j: int| 0 <= j < s.len() ==> valid_base(s[j]),
    ensures
        kmer_rc(s) < pow4(s.len()),
    decreases s.len(),
{
    if s.len() == 0 {
        assert(pow4(0) == 1) by {
            lemma2_to64();
        }
    } else {
        assert(forall|j: int| 0 <= j < s.drop_last().len() ==> valid_base(s.drop_last()[j]));
        lemma_kmer_rc_bound(s.drop_last());
        assert(comp_code(s.last()) <= 3);
        assert(pow4(s.len()) == 4 * pow4((s.len() - 1) as nat)) by {
            lemma_pow2_adds(2, 2 * (s.len() - 1) as nat);
            lemma2_to64();
        }
        lemma_mul_inequality(comp_code(s.last()) as int, 3, pow4((s.len() - 1) as nat) as int);
    }
}

/// The fixed 64-bit integer mixer applied to every canonical k-mer value.
///
/// The exact constants are part of the on-disk database contract: changing
/// them invalidates previously built databases.
pub open spec fn mix64(kmer: u64) -> u64 {
    let k1 = (!kmer).wrapping_add(kmer << 21u64);
    let k2 = k1 ^ (k1 >> 24u64);
    let k3 = (k2.wrapping_add(k2 << 3u64)).wrapping_add(k2 << 8u64);
    let k4 = k3 ^ (k3 >> 14u64);
    let k5 = (k4.wrapping_add(k4 << 2u64)).wrapping_add(k4 << 4u64);
    let k6 = k5 ^ (k5 >> 28u64);
    k6.wrapping_add(k6 << 31u64)
}

/// Decompose the forward packing at the first base: the first base holds
/// the two highest bit positions.
pub proof fn lemma_kmer_fwd_first(s: Seq<u8>)
    requires
        s.len() >= 1,
    ensures
        kmer_fwd(s) == nt_code(s.first()) as nat * pow4((s.len() - 1) as nat) + kmer_fwd(
            s.drop_first(),
        ),
    decreases s.len(),
{
    if s.len() == 1 {
        assert(s.drop_last() =~= Seq::<u8>::empty());
        assert(s.drop_first() =~= Seq::<u8>::empty());
        assert(pow4(0) == 1) by {
            lemma2_to64();
        }
        assert(s.last() == s.first());
    } else {
        let t = s.drop_last();
        lemma_kmer_fwd_first(t);
        assert(s.drop_first().drop_last() =~= t.drop_first());
        assert(s.drop_first().last() == s.last());
        assert(t.first() == s.first());
        let q = nt_code(s.first()) as nat;
        let m2 = pow4((s.len() - 2) as nat);
        let m1 = pow4((s.len() - 1) as nat);
        assert(m1 == m2 * 4) by {
            lemma_pow2_adds(2 * (s.len() - 2) as nat, 2);
            lemma2_to64();
        }
        // kmer_fwd(s) == kmer_fwd(t) * 4 + code(last)
        //             == (q * m2 + kmer_fwd(t.drop_first())) * 4 + code(last)
        assert((q * m2 + kmer_fwd(t.drop_first())) * 4 == q * (m2 * 4) + kmer_fwd(t.drop_first())
            * 4) by {
            lemma_mul_is_distributive_add_other_way(4, q * m2 as int, kmer_fwd(t.drop_first()) as int);
            lemma_mul_is_associative(q as int, m2 as int, 4);
        }
        assert(kmer_fwd(s.drop_first()) == kmer_fwd(t.drop_first()) * 4 + nt_code(
            s.last(),
        ) as nat);
    }
}

/// Decompose the reverse-complement packing at the first base: the first
/// base of the window holds the two lowest bit positions of its packing.
pub proof fn lemma_kmer_rc_first(s: Seq<u8>)
    requires
        s.len() >= 1,
    ensures
        kmer_rc(s) == kmer_rc(s.drop_first()) * 4 + comp_code(s.first()) as nat,
    decreases s.len(),
{
    if s.len() == 1 {
        assert(s.drop_last() =~= Seq::<u8>::empty());
        assert(s.drop_first() =~= Seq::<u8>::empty());
        assert(pow4(0) == 1) by {
            lemma2_to64();
        }
        assert(s.last() == s.first());
    } else {
        let t = s.drop_last();
        lemma_kmer_rc_first(t);
        assert(s.drop_first().drop_last() =~= t.drop_first());
        assert(s.drop_first().last() == s.last());
        assert(t.first() == s.first());
        let cl = comp_code(s.last()) as nat;
        let m2 = pow4((s.len() - 2) as nat);
        let m1 = pow4((s.len() - 1) as nat);
        assert(m1 == m2 * 4) by {
            lemma_pow2_adds(2 * (s.len() - 2) as nat, 2);
            lemma2_to64();
        }
        // kmer_rc(s) == cl * m1 + kmer_rc(t)
        //            == cl * m2 * 4 + kmer_rc(t.drop_first()) * 4 + comp(first)
        //            == kmer_rc(s.drop_first()) * 4 + comp(first)
        assert(kmer_rc(s.drop_first()) == cl * m2 + kmer_rc(t.drop_first()));
        assert((cl * m2 + kmer_rc(t.drop_first())) * 4 == cl * (m2 * 4) + kmer_rc(t.drop_first())
            * 4) by {
            lemma_mul_is_distributive_add_other_way(4, cl * m2 as int, kmer_rc(t.drop_first()) as int);
            lemma_mul_is_associative(cl as int, m2 as int, 4);
        }
    }
}

/// Dropping the first base of a valid window takes the forward packing
/// modulo 4^(len-1).
pub proof fn lemma_kmer_fwd_drop_first_mod(s: Seq<u8>)
    requires
        s.len() >= 1,
        forall|j: int| 0 <= j < s.len() ==> valid_base(s[j]),
    ensures
        kmer_fwd(s.drop_first()) == kmer_fwd(s) % pow4((s.len() - 1) as nat),
{
    let m = pow4((s.len() - 1) as nat);
    lemma_pow2_pos(2 * (s.len() - 1) as nat);
    lemma_kmer_fwd_first(s);
    assert(forall|j: int|
        0 <= j < s.drop_first().len() ==> valid_base(s.drop_first()[j]));
    lemma_kmer_fwd_bound(s.drop_first());
    let q = nt_code(s.first()) as nat;
    let r = kmer_fwd(s.drop_first());
    assert((m as int * q + r) % (m as int) == r as int % (m as int)) by {
        lemma_mod_multiples_vanish(q as int, r as int, m as int);
    }
    lemma_small_mod(r, m);
    assert(q * m == m * q) by {
        lemma_mul_is_commutative(q as int, m as int);
    }
}

/// Appending one more digit to a full window and reducing modulo 4^k is the
/// same as sliding the window one base to the right.
pub proof fn lemma_mul_mod_shift(v: nat, c: nat, k: nat)
    requires
        1 <= k,
        v < pow4(k),
        c < 4,
    ensures
        (v * 4 + c) % pow4(k) == (v % pow4((k - 1) as nat)) * 4 + c,
{
    let m = pow4((k - 1) as nat);
    let mm = pow4(k);
    lemma_pow2_pos(2 * (k - 1) as nat);
    lemma_pow2_pos(2 * k);
    assert(mm == m * 4) by {
        lemma_pow2_adds(2 * (k - 1) as nat, 2);
        lemma2_to64();
    }
    let q = v / m;
    let r = v % m;
    lemma_fundamental_div_mod(v as int, m as int);
    assert(v == m * q + r);
    assert(q < 4) by {
        if q >= 4 {
            assert(m * q >= m * 4) by {
                lemma_mul_inequality(4, q as int, m as int);
                lemma_mul_is_commutative(q as int, m as int);
            }
        }
    }
    assert((m * q + r) * 4 == (m * 4) * q + r * 4) by (nonlinear_arith);
    assert(r * 4 + c < mm);
    assert((mm as int * q + (r * 4 + c)) % (mm as int) == (r * 4 + c) as int % (mm as int)) by {
        lemma_mod_multiples_vanish(q as int, (r * 4 + c) as int, mm as int);
    }
    assert(mm * q == mm as int * q) by {
        lemma_mul_is_commutative(q as int, mm as int);
    }
    lemma_small_mod((r * 4 + c) as nat, mm);
}

/// The forward rolling update on machine words computes exactly one
/// append-and-truncate step of the arithmetic model.
pub proof fn lemma_fwd_step_bits(kf: u64, c: u64, mask: u64, k: nat)
    requires
        1 <= k <= 30,
        (kf as nat) < pow4(k),
        c < 4,
        mask as nat == low_bits_mask(2 * k),
    ensures
        ((((kf << 2u64) | c) & mask) as nat) == (kf as nat * 4 + c as nat) % pow4(k),
{
    lemma2_to64();
    lemma2_to64_rest();
    lemma_pow2_pos(2 * k);
    // kf * 4 fits: kf < pow4(30) == pow2(60)
    if 2 * k < 62 {
        lemma_pow2_strictly_increases(2 * k, 62);
    }
    assert(kf as nat * 4 + 3 < pow2(62) * 4) by (nonlinear_arith)
        requires
            (kf as nat) < pow2(62),
    ;
    assert(pow2(62) * 4 == pow2(64)) by {
        lemma_pow2_adds(62, 2);
    }
    lemma_u64_shl_is_mul(kf, 2);
    assert((kf << 2u64) % 4 == 0) by (bit_vector)
        requires
            kf <= 0x3fff_ffff_ffff_ffffu64,
    ;
    assert(((kf << 2u64) | c) == (kf << 2u64) + c) by (bit_vector)
        requires
            (kf << 2u64) % 4 == 0 && c < 4,
    ;
    let v = (kf << 2u64) | c;
    lemma_u64_low_bits_mask_is_mod(v, 2 * k);
    assert(v & mask == v % (pow2(2 * k) as u64));
}

/// The reverse-complement rolling update on machine words computes exactly
/// one shift-down-and-prepend step of the arithmetic model.
pub proof fn lemma_rc_step_bits(kr: u64, dd: u64, sh: u64, k: nat)
    requires
        1 <= k <= 30,
        (kr as nat) < pow4(k),
        dd < 4,
        sh == 2 * (k - 1),
    ensures
        (((kr >> 2u64) | (dd << sh)) as nat) == dd as nat * pow4((k - 1) as nat) + kr as nat / 4,
{
    lemma2_to64();
    lemma2_to64_rest();
    lemma_pow2_pos(2 * (k - 1) as nat);
    if 2 * (k - 1) < 62 {
        lemma_pow2_strictly_increases(2 * (k - 1) as nat, 62);
    }
    // dd << sh == dd * pow2(sh), no overflow
    assert(dd as nat * pow2(sh as nat) <= 3 * pow2(62)) by (nonlinear_arith)
        requires
            dd < 4 && pow2(sh as nat) <= pow2(62),
    ;
    assert(3 * pow2(62) < pow2(64)) by {
        lemma_pow2_adds(62, 2);
    }
    lemma_u64_shl_is_mul(dd, sh);
    // kr >> 2 == kr / 4
    lemma_u64_shr_is_div(kr, 2);
    // kr / 4 < pow2(sh)
    assert(pow4(k) == 4 * pow2(2 * (k - 1) as nat)) by {
        lemma_pow2_adds(2, 2 * (k - 1) as nat);
    }
    assert(kr as nat / 4 < pow2(2 * (k - 1) as nat)) by (nonlinear_arith)
        requires
            (kr as nat) < 4 * pow2(2 * (k - 1) as nat),
    ;
    // 1u64 << sh == pow2(sh)
    lemma_u64_shl_is_mul(1u64, sh);
    let a = kr >> 2u64;
    let b = dd << sh;
    assert((a | b) == a + b) by (bit_vector)
        requires
            sh <= 58 && a < (1u64 << sh) && b == (dd << sh) && dd < 4,
    ;
}

/// Hash a 2-bit-packed k-mer value through the fixed integer mixer.
pub fn mm_hash64(kmer: u64) -> (r: u64)
    ensures
        r == mix64(kmer),
{
    let mut key = kmer;
    key = (!key).wrapping_add(key << 21);
    key = key ^ (key >> 24);
    key = (key.wrapping_add(key << 3)).wrapping_add(key << 8);
    key = key ^ (key >> 14);
    key = (key.wrapping_add(key << 2)).wrapping_add(key << 4);
    key = key ^ (key >> 28);
    key = key.wrapping_add(key << 31);
    key
}

/// Decompose the set of hashes after one more byte: no window ends past `n`.
proof fn lemma_hashes_upto_step(s: Seq<u8>, k: int, d: u64, n: int)
    requires
        0 <= n,
        k >= 1,
        n + 1 <= s.len(),
        n + 1 - k >= 0 ==> !window_emitted(s, k, d, n + 1 - k),
    ensures
        hashes_upto(s, k, d, n + 1) =~= hashes_upto(s, k, d, n),
{
    assert forall|h: u64| hashes_upto(s, k, d, n + 1).contains(h) implies hashes_upto(
        s,
        k,
        d,
        n,
    ).contains(h) by {
        let p = choose|p: int|
            p + k <= n + 1 && #[trigger] window_emitted(s, k, d, p) && h == mix64(
                canonical_value(s.subrange(p, p + k)) as u64,
            );
        assert(p != n + 1 - k);
        assert(p + k <= n);
    }
    assert forall|h: u64| hashes_upto(s, k, d, n).contains(h) implies hashes_upto(
        s,
        k,
        d,
        n + 1,
    ).contains(h) by {
    }
}

/// Set of canonical k-mer hashes of `nt_string`, downsampled by
/// `config.ds_factor`.
///
/// Every k-length window made only of unambiguous bases contributes the
/// mixed hash of its canonical value, provided that value survives
/// downsampling; windows touching an ambiguous base contribute nothing, and
/// a sequence shorter than k yields the empty set.
#[verifier::rlimit(100)]
pub fn kmerize(config: &Config, nt_string: &[u8]) -> (r: HashSet<u64>)
    requires
        valid_kmer_params(config.kmer_size, config.ds_factor),
    ensures
        r@ == kmer_hash_set(nt_string@, config.kmer_size as int, config.ds_factor),
{
    let k: usize = config.kmer_size;
    let d: u64 = config.ds_factor;
    let ghost s = nt_string@;

    let nbits: u64 = (k as u64) * 2;
    let pow: u64 = 1u64 << nbits;
    proof {
        lemma2_to64();
        lemma2_to64_rest();
        lemma_pow2_strictly_increases(nbits as nat, 64);
        lemma_u64_shl_is_mul(1u64, nbits);
        lemma_pow2_pos(nbits as nat);
        assert(pow as nat == pow2(nbits as nat));
    }
    let mask: u64 = pow - 1;
    let shift: u64 = ((k - 1) as u64) * 2;
    let limit: u64 = u64::MAX / d;
    proof {
        assert(mask as nat == low_bits_mask(2 * k as nat));
    }

    let mut kf: u64 = 0;
    let mut kr: u64 = 0;
    let mut run: usize = 0;
    let mut hashes: HashSet<u64> = HashSet::new();
    let mut i: usize = 0;

    proof {
        assert(s.subrange(0, 0) =~= Seq::<u8>::empty());
        assert(pow4(0) == 1) by {
            lemma2_to64();
        }
        assert(kmer_fwd(Seq::<u8>::empty()) == 0);
        assert(kmer_rc(Seq::<u8>::empty()) == 0);
        assert(hashes_upto(s, k as int, d, 0) =~= Set::<u64>::empty());
    }

    while i < nt_string.len()
        invariant
            valid_kmer_params(k, d),
            k == config.kmer_size,
            d == config.ds_factor,
            s == nt_string@,
            i <= s.len(),
            run <= i,
            nbits == 2 * k,
            shift == 2 * (k - 1),
            mask as nat == low_bits_mask(2 * k as nat),
            limit == ds_limit(d),
            forall|j: int| i - run <= j < i ==> valid_base(s[j]),
            run < i ==> !valid_base(s[i - run - 1]),
            kf as nat == kmer_fwd(s.subrange(i - (if run <= k { run as int } else { k as int }), i as int)),
            kr as nat == kmer_rc(s.subrange(i - (if run <= k { run as int } else { k as int }), i as int))
                * pow4((k - (if run <= k { run } else { k })) as nat),
            (kf as nat) < pow4(k as nat),
            (kr as nat) < pow4(k as nat),
            hashes@ == hashes_upto(s, k as int, d, i as int),
        decreases s.len() - i,
    {
        let ghost m: int = if run <= k { run as int } else { k as int };
        let ghost sub = s.subrange(i - m, i as int);
        let b = nt_string[i];
        let c = nt_code_of(b);
        if c >= 4 {
            run = 0;
            kf = 0;
            kr = 0;
            proof {
                assert(pow4(0) == 1) by {
                    lemma2_to64();
                }
                lemma_pow2_pos(2 * k as nat);
                if i + 1 - k >= 0 {
                    assert(!window_valid(s, i + 1 - k, k as int));
                }
                lemma_hashes_upto_step(s, k as int, d, i as int);
                assert(s.subrange(i + 1 - 0, (i + 1) as int) =~= Seq::<u8>::empty());
                assert(kmer_fwd(s.subrange(i + 1 - 0, (i + 1) as int)) == 0);
                assert(kmer_rc(s.subrange(i + 1 - 0, (i + 1) as int)) == 0);
            }
        } else {
            let kf_new = ((kf << 2) | (c as u64)) & mask;
            let kr_new = (kr >> 2) | (((3 - c) as u64) << shift);
            let ghost m2: int = if run + 1 <= k { run + 1 as int } else { k as int };
            let ghost sub2 = s.subrange(i + 1 - m2, i + 1);
            proof {
                lemma_fwd_step_bits(kf, c as u64, mask, k as nat);
                lemma_rc_step_bits(kr, (3 - c) as u64, shift, k as nat);
                lemma2_to64();
                assert(comp_code(s[i as int]) == 3 - c);
                assert(forall|j: int| 0 <= j < sub.len() ==> valid_base(sub[j]));
                if run < k {
                    // the window grows by one base
                    assert(sub2 =~= sub.push(s[i as int]));
                    assert(sub2.drop_last() =~= sub);
                    // forward: no truncation happens
                    assert(kmer_fwd(sub2) == kf as nat * 4 + c as nat);
                    assert(forall|j: int| 0 <= j < sub2.len() ==> valid_base(sub2[j]));
                    lemma_kmer_fwd_bound(sub2);
                    lemma_pow2_strictly_increases(2 * sub2.len(), 2 * (k as nat + 1));
                    if sub2.len() < k {
                        lemma_pow2_strictly_increases(2 * sub2.len(), 2 * k as nat);
                    }
                    lemma_small_mod(kmer_fwd(sub2), pow4(k as nat));
                    assert(kf_new as nat == kmer_fwd(sub2));
                    // reverse: the scale factor shrinks by one step
                    let krr = kmer_rc(sub);
                    let e = (k - run) as nat;
                    assert(pow4(e) == 4 * pow4((e - 1) as nat)) by {
                        lemma_pow2_adds(2, 2 * (e - 1) as nat);
                        lemma2_to64();
                    }
                    assert(krr * (4 * pow4((e - 1) as nat)) == 4 * (krr * pow4((e - 1) as nat)))
                        by (nonlinear_arith);
                    assert(kr as nat / 4 == krr * pow4((e - 1) as nat)) by {
                        lemma_div_multiples_vanish((krr * pow4((e - 1) as nat)) as int, 4);
                    }
                    assert(kmer_rc(sub2) == comp_code(s[i as int]) as nat * pow4(sub.len()) + krr);
                    assert(kmer_rc(sub2) * pow4((k - run - 1) as nat) == comp_code(
                        s[i as int],
                    ) as nat * pow4((k - 1) as nat) + krr * pow4((e - 1) as nat)) by {
                        assert(pow4(sub.len()) * pow4((k - run - 1) as nat) == pow4(
                            (k - 1) as nat,
                        )) by {
                            lemma_pow2_adds(2 * sub.len(), 2 * (k - run - 1) as nat);
                        }
                        assert((comp_code(s[i as int]) as nat * pow4(sub.len()) + krr) * pow4(
                            (k - run - 1) as nat,
                        ) == comp_code(s[i as int]) as nat * (pow4(sub.len()) * pow4(
                            (k - run - 1) as nat,
                        )) + krr * pow4((k - run - 1) as nat)) by (nonlinear_arith);
                    }
                    assert(kr_new as nat == kmer_rc(sub2) * pow4((k - m2) as nat));
                } else {
                    // the window slides one base to the right
                    assert(m == k as int && m2 == k as int);
                    assert((k - (if run <= k { run } else { k })) as nat == 0);
                    assert(kr as nat == kmer_rc(sub) * pow4(0));
                    assert(pow4(0) == 1) by {
                        lemma2_to64();
                    }
                    assert(kr as nat == kmer_rc(sub) * 1);
                    assert(kr as nat == kmer_rc(sub));
                    assert(sub2 =~= sub.drop_first().push(s[i as int]));
                    assert(sub2.drop_last() =~= sub.drop_first());
                    // forward
                    lemma_mul_mod_shift(kf as nat, c as nat, k as nat);
                    lemma_kmer_fwd_drop_first_mod(sub);
                    assert(kmer_fwd(sub2) == kmer_fwd(sub.drop_first()) * 4 + c as nat);
                    assert(kf_new as nat == kmer_fwd(sub2));
                    // reverse
                    lemma_kmer_rc_first(sub);
                    assert(comp_code(sub.first()) < 4);
                    assert(pow4(0) == 1) by {
                        lemma2_to64();
                    }
                    assert(kr as nat == 4 * kmer_rc(sub.drop_first()) + comp_code(
                        sub.first(),
                    ) as nat);
                    assert(kr as nat / 4 == kmer_rc(sub.drop_first())) by {
                        lemma_div_multiples_vanish_fancy(
                            kmer_rc(sub.drop_first()) as int,
                            comp_code(sub.first()) as int,
                            4,
                        );
                    }
                    assert(kmer_rc(sub2) == comp_code(s[i as int]) as nat * pow4((k - 1) as nat)
                        + kmer_rc(sub.drop_first()));
                    assert(pow4(0) == 1) by {
                        lemma2_to64();
                    }
                    assert(kr_new as nat == kmer_rc(sub2) * pow4((k - m2) as nat));
                }
                // bounds for the next iteration
                assert(forall|j: int| 0 <= j < sub2.len() ==> valid_base(sub2[j]));
                lemma_kmer_fwd_bound(sub2);
                lemma_kmer_rc_bound(sub2);
                if sub2.len() < k {
                    lemma_pow2_strictly_increases(2 * sub2.len(), 2 * k as nat);
                }
                if m2 == k as int {
                    assert(pow4(0) == 1) by {
                        lemma2_to64();
                    }
                    assert(kr_new as nat == kmer_rc(sub2));
                } else {
                    assert(kmer_rc(sub2) * pow4((k - m2) as nat) < pow4(m2 as nat) * pow4(
                        (k - m2) as nat,
                    )) by {
                        lemma_pow2_pos(2 * (k - m2) as nat);
                        lemma_mul_strict_inequality(
                            kmer_rc(sub2) as int,
                            pow4(m2 as nat) as int,
                            pow4((k - m2) as nat) as int,
                        );
                        lemma_mul_is_commutative(kmer_rc(sub2) as int, pow4((k - m2) as nat) as int);
                        lemma_mul_is_commutative(pow4(m2 as nat) as int, pow4((k - m2) as nat) as int);
                    }
                    assert(pow4(m2 as nat) * pow4((k - m2) as nat) == pow4(k as nat)) by {
                        lemma_pow2_adds(2 * m2 as nat, 2 * (k - m2) as nat);
                    }
                }
            }
            kf = kf_new;
            kr = kr_new;
            if run >= k - 1 {
                // a full window of valid bases ends here
                let canonical = if kf < kr {
                    kf
                } else {
                    kr
                };
                proof {
                    assert(m2 == k as int);
                    assert(window_valid(s, i + 1 - k, k as int));
                    assert(canonical as nat == canonical_value(sub2));
                }
                if canonical <= limit {
                    let h = mm_hash64(canonical);
                    hashes.insert(h);
                    proof {
                        assert(window_emitted(s, k as int, d, i + 1 - k));
                        assert forall|x: u64| hashes_upto(s, k as int, d, i + 1).contains(x)
                            implies hashes@.insert(h).contains(x) by {
                            let p = choose|p: int|
                                p + k <= i + 1 && #[trigger] window_emitted(s, k as int, d, p)
                                    && x == mix64(canonical_value(s.subrange(p, p + k)) as u64);
                            if p == i + 1 - k {
                                assert(x == h);
                            } else {
                                assert(p + k <= i);
                                assert(hashes_upto(s, k as int, d, i as int).contains(x));
                            }
                        }
                        assert forall|x: u64| hashes@.insert(h).contains(x) implies hashes_upto(
                            s,
                            k as int,
                            d,
                            i + 1,
                        ).contains(x) by {
                            if x == h {
                                assert(window_emitted(s, k as int, d, i + 1 - k));
                                assert(hashes_upto(s, k as int, d, i + 1).contains(x));
                            } else {
                                assert(hashes_upto(s, k as int, d, i as int).contains(x));
                            }
                        }
                        assert(hashes_upto(s, k as int, d, i + 1) =~= hashes@.insert(h));
                    }
                } else {
                    proof {
                        assert(!window_emitted(s, k as int, d, i + 1 - k));
                        lemma_hashes_upto_step(s, k as int, d, i as int);
                    }
                }
            } else {
                proof {
                    if i + 1 - k >= 0 {
                        // the base just before the current run is ambiguous
                        // and lies inside the window ending here
                        assert(run < i);
                        assert(i - run - 1 >= i + 1 - k);
                        assert(!window_valid(s, i + 1 - k, k as int));
                    }
                    lemma_hashes_upto_step(s, k as int, d, i as int);
                }
            }
            run = run + 1;
        }
        i = i + 1;
    }
    hashes
}

} // verus!
