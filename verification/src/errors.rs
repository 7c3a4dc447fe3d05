//! Application-level error values.

use vstd::prelude::*;

verus! {

/// Errors surfaced to the caller of the build and classify paths.
#[derive(Debug, PartialEq, Eq, Structural)]
pub enum AppError {
    /// The FASTA path does not point to a readable file.
    FastaPathError,
    /// The FASTA file could not be opened for reading.
    FastaReadError,
    /// The database bytes are not a valid encoded database.
    DatabaseDecodeError,
}

impl AppError {
    /// A human-readable description of the error.
    pub fn message(&self) -> (r: &'static str)
        ensures
            match self {
                AppError::FastaPathError => r@ == "Fasta Does Not Exist"@,
                AppError::FastaReadError => r@ == "Fasta Could Not Be Read"@,
                AppError::DatabaseDecodeError => r@ == "Invalid Database File"@,
            },
    {
        match self {
            AppError::FastaPathError => "Fasta Does Not Exist",
            AppError::FastaReadError => "Fasta Could Not Be Read",
            AppError::DatabaseDecodeError => "Invalid Database File",
        }
    }
}

} // verus!
