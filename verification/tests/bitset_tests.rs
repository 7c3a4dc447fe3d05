use sintax::kmer_bitset::{BitSetError, KmerBitSet};

#[test]
fn test_bitset_round_trip_ascending() {
    let mut bs = KmerBitSet::new(130);
    bs.set(129).unwrap();
    bs.set(0).unwrap();
    bs.set(64).unwrap();
    bs.set(0).unwrap();
    let ones = bs.ones();
    assert_eq!(ones, vec![0usize, 64, 129]);
}

#[test]
fn test_bitset_set_out_of_bounds() {
    let mut bs = KmerBitSet::new(100);
    assert!(bs.set(99).is_ok());
    assert!(bs.set(100).is_err());
    match bs.set(1000) {
        Err(BitSetError::OutOfBoundsError { index, capacity }) => {
            assert_eq!(index, 1000);
            assert_eq!(capacity, 100);
        }
        Ok(()) => panic!("setting past the capacity must fail"),
    }
    let ones = bs.ones();
    assert_eq!(ones, vec![99usize]);
}

#[test]
fn test_bitset_is_empty() {
    let mut bs = KmerBitSet::new(70);
    assert!(bs.is_empty());
    bs.set(69).unwrap();
    assert!(!bs.is_empty());
}

#[test]
fn test_bitset_iterator_ascending_and_restartable() {
    let mut bs = KmerBitSet::new(200);
    bs.set_unchecked(5);
    bs.set_unchecked(63);
    bs.set_unchecked(64);
    bs.set_unchecked(199);
    let mut it = bs.ones_by_iterator();
    assert_eq!(it.next(), Some(5));
    assert_eq!(it.next(), Some(63));
    assert_eq!(it.next(), Some(64));
    assert_eq!(it.next(), Some(199));
    assert_eq!(it.next(), None);
    assert_eq!(it.next(), None);
    // a fresh iterator restarts from the beginning
    let mut it2 = bs.ones_by_iterator();
    assert_eq!(it2.next(), Some(5));
}

#[test]
fn test_bitset_empty_capacity() {
    let mut bs = KmerBitSet::new(0);
    assert!(bs.is_empty());
    assert!(bs.set(0).is_err());
    assert_eq!(bs.ones(), Vec::<usize>::new());
    let mut it = bs.ones_by_iterator();
    assert_eq!(it.next(), None);
}

#[test]
fn test_bitset_word_boundary_capacity() {
    let mut bs = KmerBitSet::new(64);
    bs.set(63).unwrap();
    assert!(bs.set(64).is_err());
    assert_eq!(bs.ones(), vec![63usize]);
}
