use sintax::args::{Args, SubCommand};
use sintax::errors::AppError;

#[test]
fn test_validate_database_ranges() {
    let good = SubCommand::Database {
        fasta: String::from("refs.fa"),
        outfile: String::from("database.srs"),
        kmer_size: 15,
        downsampling_factor: 1,
    };
    assert!(good.validate());
    let low_k = SubCommand::Database {
        fasta: String::from("refs.fa"),
        outfile: String::from("database.srs"),
        kmer_size: 6,
        downsampling_factor: 1,
    };
    assert!(!low_k.validate());
    let high_d = SubCommand::Database {
        fasta: String::from("refs.fa"),
        outfile: String::from("database.srs"),
        kmer_size: 15,
        downsampling_factor: 100,
    };
    assert!(!high_d.validate());
}

#[test]
fn test_validate_classify_ranges() {
    let good = SubCommand::Classify {
        fasta: String::from("queries.fa"),
        database: String::from("database.srs"),
        bootstraps: 100,
        query_hashes: 32,
        kmer_size: 15,
        downsampling_factor: 1,
        outfile: String::from("out.tsv"),
        threads: 0,
    };
    assert!(good.validate());
    let config = good.classify_config().expect("classify carries a config");
    assert_eq!(config.kmer_size, 15);
    assert_eq!(config.num_bootstraps, 100);
    assert_eq!(config.num_query_hashes, 32);
    assert_eq!(config.ds_factor, 1);
    let args = Args { command: good };
    assert!(args.command.validate());

    let bad = SubCommand::Classify {
        fasta: String::from("queries.fa"),
        database: String::from("database.srs"),
        bootstraps: 200,
        query_hashes: 32,
        kmer_size: 15,
        downsampling_factor: 1,
        outfile: String::from("out.tsv"),
        threads: 0,
    };
    assert!(!bad.validate());
}

#[test]
fn test_error_messages() {
    assert_eq!(AppError::FastaPathError.message(), "Fasta Does Not Exist");
    assert_eq!(AppError::FastaReadError.message(), "Fasta Could Not Be Read");
    assert_eq!(AppError::DatabaseDecodeError.message(), "Invalid Database File");
}
