//! SINTAX-style taxonomic classification of short nucleotide sequences.
//!
//! A reference corpus is turned into an inverted index mapping canonical
//! k-mer hashes to packed bit vectors keyed by reference ordinal; queries
//! are classified by a bootstrap procedure that repeatedly samples hashes
//! from the query's k-mer set and reports the best-matching reference.

pub mod args;
pub mod classify;
pub mod codec;
pub mod errors;
pub mod index;
pub mod kmer_bitset;
pub mod kmer_laws;
pub mod kmers;
pub mod utils;

pub use kmers::mm_hash64;
