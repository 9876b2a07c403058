//! Counting of fixed-length guide sequences (`sgRNAs`) in sequencing reads.
//!
//! A [`Library`] holds the guides, each with its alias. A [`Permuter`] is
//! the index of the sequences that are one mismatch away from a single
//! guide. A [`Counter`] takes the reads of a sample one by one, looks for the
//! guide in each read at the [`Offset`] of the sample, and counts the reads
//! of each guide. The counters of the samples are written as a table, with
//! the genes of a [`GeneMap`] if there is one.
//!
//! The library works on values in memory: records, byte strings and counts.
//! Reading sequence files and writing the table are left to its callers, and
//! so is the arithmetic on entropies by which an offset is estimated; for
//! that, the library counts the nucleotides position by position and chooses
//! the offset once the errors of the windows are known.
//!
//! Every function states what it returns, and the verifier proves it. What
//! is trusted without proof are the hash collections of `hashbrown` in
//! [`table`], the lines and bytes that `bstr` finds in [`lines`], and the
//! reading of UTF-8 by `std` in [`utils`].

pub mod count;
pub mod counter;
pub mod genemap;
pub mod hamming;
pub mod library;
pub mod lines;
pub mod offsetter;
pub mod permutes;
pub mod results;
pub mod sequence;
pub mod table;
pub mod trimmer;
pub mod tsv;
pub mod utils;

pub use count::count;
pub use counter::Counter;
pub use genemap::GeneMap;
pub use library::{Library, Record};
pub use offsetter::Offset;
pub use permutes::Permuter;
pub use trimmer::Trimmer;
