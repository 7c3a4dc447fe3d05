//! Command-line surface: the two subcommands and their parameter ranges.
//!
//! Argument parsing itself is an external concern; these types carry the
//! parsed values, and validation pins the documented ranges before any work
//! begins.

use vstd::prelude::*;
use crate::utils::Config;

verus! {

/// Top-level arguments: one subcommand.
pub struct Args {
    /// The selected subcommand.
    pub command: SubCommand,
}

/// The two operations: build a database, or classify queries against one.
pub enum SubCommand {
    /// Build the inverted-index database from a reference FASTA file.
    Database {
        /// Path to the reference FASTA file.
        fasta: String,
        /// Database output file.
        outfile: String,
        /// K-mer length.
        kmer_size: u16,
        /// Fractional downsampling factor.
        downsampling_factor: u64,
    },
    /// Classify query records against a prebuilt database.
    Classify {
        /// Path to the query FASTA file.
        fasta: String,
        /// Path to the database file.
        database: String,
        /// Number of bootstrap iterations per query.
        bootstraps: u16,
        /// Number of hashes sampled per iteration.
        query_hashes: u16,
        /// K-mer length.
        kmer_size: u16,
        /// Fractional downsampling factor.
        downsampling_factor: u64,
        /// Result output file.
        outfile: String,
        /// Worker threads (0 selects the pool default).
        threads: usize,
    },
}

impl SubCommand {
    /// All numeric parameters lie in their documented ranges.
    pub open spec fn wf(&self) -> bool {
        match self {
            SubCommand::Database { kmer_size, downsampling_factor, .. } => {
                &&& 7 <= *kmer_size <= 30
                &&& 1 <= *downsampling_factor <= 99
            },
            SubCommand::Classify {
                bootstraps,
                query_hashes,
                kmer_size,
                downsampling_factor,
                ..
            } => {
                &&& 7 <= *kmer_size <= 30
                &&& 1 <= *downsampling_factor <= 99
                &&& 10 <= *bootstraps <= 199
                &&& 10 <= *query_hashes <= 99
            },
        }
    }

    /// Check all numeric parameters against their documented ranges.
    pub fn validate(&self) -> (r: bool)
        ensures
            r == self.wf(),
    {
        match self {
            SubCommand::Database { kmer_size, downsampling_factor, .. } => {
                7 <= *kmer_size && *kmer_size <= 30 && 1 <= *downsampling_factor
                    && *downsampling_factor <= 99
            },
            SubCommand::Classify {
                bootstraps,
                query_hashes,
                kmer_size,
                downsampling_factor,
                ..
            } => {
                7 <= *kmer_size && *kmer_size <= 30 && 1 <= *downsampling_factor
                    && *downsampling_factor <= 99 && 10 <= *bootstraps && *bootstraps <= 199
                    && 10 <= *query_hashes && *query_hashes <= 99
            },
        }
    }

    /// The classifier configuration carried by a validated `Classify`
    /// subcommand.
    pub fn classify_config(&self) -> (r: Option<Config>)
        requires
            self.wf(),
        ensures
            match r {
                Some(c) => self matches SubCommand::Classify {
                    bootstraps,
                    query_hashes,
                    kmer_size,
                    downsampling_factor,
                    ..
                } && c.wf() && c.kmer_size == *kmer_size && c.ds_factor == *downsampling_factor
                    && c.num_bootstraps == *bootstraps && c.num_query_hashes == *query_hashes,
                None => self is Database,
            },
    {
        match self {
            SubCommand::Classify {
                bootstraps,
                query_hashes,
                kmer_size,
                downsampling_factor,
                ..
            } => Some(
                Config {
                    kmer_size: *kmer_size as usize,
                    num_bootstraps: *bootstraps as usize,
                    num_query_hashes: *query_hashes as usize,
                    ds_factor: *downsampling_factor,
                },
            ),
            SubCommand::Database { .. } => None,
        }
    }
}

} // verus!
