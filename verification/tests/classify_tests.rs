use sintax::classify::{
    argmax, bootstrap_classify_query, classify_record, classify_sampled, count_votes,
    u64_to_string,
};
use sintax::index::{build_reverse_index, Record};
use sintax::kmers::kmerize;
use sintax::utils::{hash_set_to_vec, Config};

fn three_records() -> Vec<Record> {
    vec![
        Record {
            id: String::from("r1"),
            seq: b"ATCGATCGATCGATCGATCGATCGATCGATCG".to_vec(),
        },
        Record {
            id: String::from("r2"),
            seq: b"GGGGGGGGGGGGGGGGGGGGGGGGGGGGGGGG".to_vec(),
        },
        Record {
            id: String::from("r3"),
            seq: b"ATCGATCGATCGATCGATCGATCGATCGATCG".to_vec(),
        },
    ]
}

fn config7() -> Config {
    Config { kmer_size: 7, num_bootstraps: 10, num_query_hashes: 10, ds_factor: 1 }
}

#[test]
fn test_u64_to_string() {
    assert_eq!(u64_to_string(0), "0");
    assert_eq!(u64_to_string(9), "9");
    assert_eq!(u64_to_string(10), "10");
    assert_eq!(u64_to_string(12345), "12345");
    assert_eq!(u64_to_string(u64::MAX), "18446744073709551615");
}

#[test]
fn test_argmax_first_maximum_wins() {
    let counts: Vec<usize> = vec![3, 7, 7, 2];
    assert_eq!(argmax(&counts), Some((1, 7)));
    let tied: Vec<usize> = vec![5, 5, 5];
    assert_eq!(argmax(&tied), Some((0, 5)));
    let empty: Vec<usize> = Vec::new();
    assert_eq!(argmax(&empty), None);
    let zeros: Vec<usize> = vec![0, 0];
    assert_eq!(argmax(&zeros), Some((0, 0)));
}

#[test]
fn test_count_votes_direct() {
    let records = three_records();
    let (index, _ids) = build_reverse_index(&records, 7, 1);
    let qv = hash_set_to_vec(&kmerize(&config7(), &records[0].seq));
    assert!(qv.len() >= 1);
    let samples: Vec<usize> = vec![0, 0, 0];
    let counts = count_votes(&index, &qv, &samples);
    // each sample votes for both copies of the repeated reference
    assert_eq!(counts, vec![3usize, 0, 3]);
}

#[test]
fn test_classify_identical_query() {
    let records = three_records();
    let (index, ids) = build_reverse_index(&records, 7, 1);
    let qv = hash_set_to_vec(&kmerize(&config7(), b"ATCGATCGATCGATCGATCG"));
    let out = bootstrap_classify_query(&qv, "q1", &index, &ids, &config7());
    let lines: Vec<&str> = out.split('\n').collect();
    assert_eq!(lines.len(), 10);
    for (i, line) in lines.iter().enumerate() {
        let fields: Vec<&str> = line.split('\t').collect();
        assert_eq!(fields.len(), 4);
        assert_eq!(fields[0], "q1");
        // the tie between the two identical references breaks to r1
        assert_eq!(fields[1], "r1");
        assert_eq!(fields[2], "10");
        assert_eq!(fields[3], format!("{}", i + 1));
    }
}

#[test]
fn test_classify_ambiguous_only_query() {
    let records = three_records();
    let (index, ids) = build_reverse_index(&records, 7, 1);
    let qv = hash_set_to_vec(&kmerize(&config7(), b"NNNNNNNNNNNN"));
    assert!(qv.is_empty());
    let out = bootstrap_classify_query(&qv, "q2", &index, &ids, &config7());
    assert_eq!(out, "");
}

#[test]
fn test_classify_strand_query() {
    let records = three_records();
    let (index, ids) = build_reverse_index(&records, 7, 1);
    // reverse complement of a region of the first reference
    let qv = hash_set_to_vec(&kmerize(&config7(), b"CGATCGATCGATCGATCGAT"));
    assert!(!qv.is_empty());
    let out = bootstrap_classify_query(&qv, "q3", &index, &ids, &config7());
    for line in out.split('\n') {
        let fields: Vec<&str> = line.split('\t').collect();
        assert_eq!(fields[1], "r1");
    }
}

#[test]
fn test_classify_record_end_to_end() {
    let records = three_records();
    let (index, ids) = build_reverse_index(&records, 7, 1);
    let query = Record { id: String::from("q1"), seq: b"ATCGATCGATCGATCGATCG".to_vec() };
    let out = classify_record(&query, &index, &ids, &config7());
    for line in out.split('\n') {
        let fields: Vec<&str> = line.split('\t').collect();
        assert_eq!(fields[0], "q1");
        assert_eq!(fields[1], "r1");
    }
}

#[test]
fn test_classifier_deterministic_under_fixed_samples() {
    let records = three_records();
    let (index, ids) = build_reverse_index(&records, 7, 1);
    let qv = hash_set_to_vec(&kmerize(&config7(), &records[0].seq));
    let mut samples: Vec<Vec<usize>> = Vec::new();
    for b in 0..10usize {
        let mut v: Vec<usize> = Vec::new();
        for j in 0..10usize {
            v.push((b + j) % qv.len());
        }
        samples.push(v);
    }
    let out1 = classify_sampled(&qv, "q1", &index, &ids, &samples);
    let out2 = classify_sampled(&qv, "q1", &index, &ids, &samples);
    assert_eq!(out1, out2);
    assert!(!out1.is_empty());
}

#[test]
fn test_downsampling_preserves_top_hit() {
    let records = three_records();
    let (full_index, full_ids) = build_reverse_index(&records, 15, 1);
    let (ds_index, ds_ids) = build_reverse_index(&records, 15, 5);
    let full_config = Config {
        kmer_size: 15,
        num_bootstraps: 10,
        num_query_hashes: 10,
        ds_factor: 1,
    };
    let ds_config = Config {
        kmer_size: 15,
        num_bootstraps: 10,
        num_query_hashes: 10,
        ds_factor: 5,
    };
    let query = Record {
        id: String::from("q"),
        seq: b"ATCGATCGATCGATCGATCGATCGATCGATCG".to_vec(),
    };
    let full_out = classify_record(&query, &full_index, &full_ids, &full_config);
    let ds_out = classify_record(&query, &ds_index, &ds_ids, &ds_config);
    assert!(!full_out.is_empty());
    for line in full_out.split('\n') {
        let fields: Vec<&str> = line.split('\t').collect();
        assert_eq!(fields[1], "r1");
    }
    for line in ds_out.split('\n') {
        if line.is_empty() {
            continue;
        }
        let fields: Vec<&str> = line.split('\t').collect();
        assert_eq!(fields[1], "r1");
    }
}
