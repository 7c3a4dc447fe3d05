use sintax::classify::classify_sampled;
use sintax::codec::{
    build_database, encode_database, encode_payload, decode_payload, load_database, push_u64,
    read_u64, Database,
};
use sintax::errors::AppError;
use sintax::index::{build_reverse_index, Record};
use sintax::kmers::kmerize;
use sintax::utils::{hash_set_to_vec, Config};

fn three_records() -> Vec<Record> {
    vec![
        Record {
            id: String::from("r1"),
            seq: b"ATCGATCGATCGATCGATCGATCGATCGATCG".to_vec(),
        },
        Record {
            id: String::from("r2"),
            seq: b"GGGGGGGGGGGGGGGGGGGGGGGGGGGGGGGG".to_vec(),
        },
        Record {
            id: String::from("r3"),
            seq: b"ATCGATCGATCGATCGATCGATCGATCGATCG".to_vec(),
        },
    ]
}

fn build_db(kmer_size: usize, ds: u64) -> Database {
    let records = three_records();
    let (index, ids) = build_reverse_index(&records, kmer_size, ds);
    Database { index, ids }
}

#[test]
fn test_varint_round_trip() {
    let values: Vec<u64> = vec![0, 1, 250, 251, 252, 253, 1000, 1 << 40, u64::MAX];
    let mut out: Vec<u8> = Vec::new();
    for v in values.iter() {
        push_u64(&mut out, *v);
    }
    let mut pos: usize = 0;
    for v in values.iter() {
        let (got, next) = read_u64(&out, pos).expect("value must decode");
        assert_eq!(got, *v);
        pos = next;
    }
    assert_eq!(pos, out.len());
    assert!(read_u64(&out, pos).is_none());
}

#[test]
fn test_varint_small_values_single_byte() {
    let mut out: Vec<u8> = Vec::new();
    push_u64(&mut out, 17);
    assert_eq!(out, vec![17u8]);
    let mut wide: Vec<u8> = Vec::new();
    push_u64(&mut wide, 300);
    assert_eq!(wide.len(), 9);
    assert_eq!(wide[0], 253u8);
}

#[test]
fn test_payload_round_trip() {
    let db = build_db(7, 1);
    let payload = encode_payload(&db);
    let db2 = decode_payload(&payload).expect("payload must decode");
    assert_eq!(db2.ids, db.ids);
    // same hash set, same bits per hash
    assert_eq!(db2.index.hashes.len(), db.index.hashes.len());
    for h in db.index.hashes.iter() {
        let a = db.index.get(*h).expect("hash in the built index");
        let b = db2.index.get(*h).expect("hash in the reloaded index");
        let mut ita = a.ones_by_iterator();
        let mut itb = b.ones_by_iterator();
        loop {
            let x = ita.next();
            let y = itb.next();
            assert_eq!(x, y);
            if x.is_none() {
                break;
            }
        }
    }
}

#[test]
fn test_decode_rejects_garbage() {
    let garbage: Vec<u8> = vec![253u8, 1, 2];
    assert!(decode_payload(&garbage).is_err());
    let truncated: Vec<u8> = vec![5u8, 1];
    assert!(decode_payload(&truncated).is_err());
    let not_a_frame: Vec<u8> = vec![0u8, 1, 2, 3];
    assert_eq!(load_database(&not_a_frame).err(), Some(AppError::DatabaseDecodeError));
}

#[test]
fn test_database_round_trip_compressed() {
    let db = build_db(7, 1);
    let bytes = encode_database(&db).expect("encoding must succeed");
    let db2 = load_database(&bytes).expect("reload must succeed");
    assert_eq!(db2.ids, db.ids);
    assert_eq!(db2.index.hashes.len(), db.index.hashes.len());
    for h in db.index.hashes.iter() {
        assert!(db2.index.get(*h).is_some());
    }
}

#[test]
fn test_round_trip_classify_matches() {
    let records = three_records();
    let bytes = build_database(&records, 7, 1).expect("build must succeed");
    let reloaded = load_database(&bytes).expect("reload must succeed");
    let db = build_db(7, 1);

    let config = Config { kmer_size: 7, num_bootstraps: 10, num_query_hashes: 10, ds_factor: 1 };
    let qv = hash_set_to_vec(&kmerize(&config, b"ATCGATCGATCGATCGATCG"));
    let mut samples: Vec<Vec<usize>> = Vec::new();
    for b in 0..10usize {
        let mut v: Vec<usize> = Vec::new();
        for j in 0..10usize {
            v.push((b * 3 + j) % qv.len());
        }
        samples.push(v);
    }
    let out_mem = classify_sampled(&qv, "q1", &db.index, &db.ids, &samples);
    let out_disk = classify_sampled(&qv, "q1", &reloaded.index, &reloaded.ids, &samples);
    assert_eq!(out_mem, out_disk);
    assert!(!out_mem.is_empty());
}
