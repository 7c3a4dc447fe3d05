use sintax::kmers::{kmerize, mm_hash64};
use sintax::utils::{hash_set_to_vec, Config};

fn config(kmer_size: usize, ds_factor: u64) -> Config {
    Config { kmer_size, num_bootstraps: 10, num_query_hashes: 10, ds_factor }
}

#[test]
fn test_mm_hash64_values() {
    assert_eq!(mm_hash64(0), 8633297058295171728u64);
    assert_eq!(mm_hash64(1), 6614235796240398542u64);
    assert_eq!(mm_hash64(12345), 7658450573117590115u64);
}

#[test]
fn test_kmerize() {
    let cases: Vec<(&[u8], usize, usize)> = vec![
        (b"AAAAAAAA", 7, 1),
        (b"AAAAAAAC", 7, 2),
        (b"ATCGATCGATCG", 7, 2),
        (b"ATCNATCNATCNATC", 7, 0),
    ];
    for (seq, kmer_size, expected_num_hashes) in cases {
        let result = kmerize(&config(kmer_size, 1), seq);
        assert_eq!(result.len(), expected_num_hashes);
    }
}

#[test]
fn test_kmerize_reverse() {
    let cases: Vec<(&[u8], &[u8], usize)> = vec![
        (b"AAAAAAAA", b"TTTTTTTT", 7),
        (b"AAAAAAAAAT", b"ATTTTTTTTT", 7),
    ];
    for (seq1, seq2, kmer_size) in cases {
        let result1 = kmerize(&config(kmer_size, 1), seq1);
        let result2 = kmerize(&config(kmer_size, 1), seq2);
        assert_eq!(result1, result2);
    }
}

#[test]
fn test_kmerize_shorter_than_k_is_empty() {
    let result = kmerize(&config(7, 1), b"ATCGAT");
    assert!(result.is_empty());
    let empty = kmerize(&config(7, 1), b"");
    assert!(empty.is_empty());
}

#[test]
fn test_kmerize_lower_case_and_u() {
    let upper = kmerize(&config(7, 1), b"ATCGATCGATCG");
    let lower = kmerize(&config(7, 1), b"atcgatcgatcg");
    let with_u = kmerize(&config(7, 1), b"AUCGAUCGAUCG");
    assert_eq!(upper, lower);
    assert_eq!(upper, with_u);
}

#[test]
fn test_kmerize_ambiguous_gate() {
    // an N erases exactly the windows that span it: here only the two
    // flanking 7-windows survive, and they are the same k-mer
    let clean = kmerize(&config(7, 1), b"ATCGATCGATCGATC");
    let broken = kmerize(&config(7, 1), b"ATCGATCNATCGATC");
    assert_eq!(broken.len(), 1);
    for h in broken.iter() {
        assert!(clean.contains(h));
    }
    assert!(broken.len() < clean.len());
    // when every window spans an N, nothing survives
    let gone = kmerize(&config(7, 1), b"ATCNATCNATCNATC");
    assert!(gone.is_empty());
}

#[test]
fn test_kmerize_downsampling_subset() {
    let seq = b"ATCGATCGATCGATCGATCGATCGATCGATCG";
    let full = kmerize(&config(15, 1), seq);
    let sampled = kmerize(&config(15, 5), seq);
    for h in sampled.iter() {
        assert!(full.contains(h));
    }
    assert!(sampled.len() <= full.len());
}

#[test]
fn test_kmerize_boundary_sizes() {
    let seq = b"ATCGATCGATCGATCGATCGATCGATCGATCG";
    let k7 = kmerize(&config(7, 1), seq);
    let k30 = kmerize(&config(30, 1), seq);
    assert!(!k7.is_empty());
    assert!(!k30.is_empty());
    let v = hash_set_to_vec(&k7);
    assert_eq!(v.len(), k7.len());
    for h in v.iter() {
        assert!(k7.contains(h));
    }
}
