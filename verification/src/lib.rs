//! Verified parsing of FASTA sequence files.
//!
//! The core is a line-driven accumulator state machine that assembles
//! multi-line sequence bodies into single strings, demarcating records
//! by their header lines.

pub mod fastx;

pub use fastx::parse_fasta;
pub use fastx::parse_fastq;
pub use fastx::FastaParser;
