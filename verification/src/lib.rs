//! Downsampling of paired genomic interval records.
//!
//! A table of interval-pair rows is read from tab-separated text, restricted
//! to the canonical chromosomes, thinned to a random fraction of its rows
//! without replacement, ordered by chromosome and start coordinate, and
//! rendered as tab-separated text again.

pub mod bytes;
pub mod chrom;
pub mod decode;
pub mod error;
pub mod filter;
pub mod fraction;
pub mod load;
pub mod pipeline;
pub mod record;
pub mod sample;
pub mod sort;
pub mod text;
pub mod write;
