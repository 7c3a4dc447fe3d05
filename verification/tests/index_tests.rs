use sintax::index::{build_reverse_index, Record};
use sintax::kmers::kmerize;
use sintax::utils::{hash_set_to_vec, Config};

fn three_records() -> Vec<Record> {
    vec![
        Record {
            id: String::from("r1"),
            seq: b"ATCGATCGATCGATCGATCGATCGATCGATCG".to_vec(),
        },
        Record {
            id: String::from("r2"),
            seq: b"GGGGGGGGGGGGGGGGGGGGGGGGGGGGGGGG".to_vec(),
        },
        Record {
            id: String::from("r3"),
            seq: b"ATCGATCGATCGATCGATCGATCGATCGATCG".to_vec(),
        },
    ]
}

#[test]
fn test_build_index_three_records() {
    let records = three_records();
    let (index, ids) = build_reverse_index(&records, 7, 1);
    assert_eq!(ids, vec![
        String::from("r1"),
        String::from("r2"),
        String::from("r3"),
    ]);

    let config = Config { kmer_size: 7, num_bootstraps: 10, num_query_hashes: 10, ds_factor: 1 };
    // every k-mer of r1 and r3 indexes bits 0 and 2, and only those
    let r1_hashes = hash_set_to_vec(&kmerize(&config, &records[0].seq));
    for h in r1_hashes.iter() {
        let bs = index.get(*h).expect("hash of r1 must be indexed");
        let mut it = bs.ones_by_iterator();
        let mut posting: Vec<usize> = Vec::new();
        while let Some(i) = it.next() {
            posting.push(i);
        }
        assert_eq!(posting, vec![0usize, 2]);
    }
    // r2's homopolymer k-mer indexes only bit 1
    let r2_hashes = hash_set_to_vec(&kmerize(&config, &records[1].seq));
    assert_eq!(r2_hashes.len(), 1);
    for h in r2_hashes.iter() {
        let bs = index.get(*h).expect("hash of r2 must be indexed");
        let mut it = bs.ones_by_iterator();
        let mut posting: Vec<usize> = Vec::new();
        while let Some(i) = it.next() {
            posting.push(i);
        }
        assert_eq!(posting, vec![1usize]);
    }
}

#[test]
fn test_build_index_empty_corpus() {
    let records: Vec<Record> = Vec::new();
    let (index, ids) = build_reverse_index(&records, 7, 1);
    assert!(ids.is_empty());
    assert!(index.get(42).is_none());
}
