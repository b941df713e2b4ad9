//! Finds groups of files with identical content.
//!
//! Files are first partitioned by size, which is cheap to get, and only files
//! that share their size with another are read and partitioned again, by the
//! SHA-512 checksum of their content. What remains are the groups of two or
//! more files that agree in both.
//!
//! - [`partition`] holds the partition engine: it groups items by a key, in a
//!   parallel fold of the keyed items into key-to-list mappings that
//!   [`multimap::union_multimap`] merges.
//! - [`checksum`] computes checksums, [`order`] sorts paths.
//! - [`pipeline`] puts the stages together.
//! - [`bucket`], [`selection`] and [`stages`] hold the theory that the
//!   contracts are stated in, and [`laws`] what follows from the contracts.

pub mod bucket;
pub mod checksum;
pub mod clargs;
pub mod laws;
pub mod multimap;
pub mod order;
pub mod partition;
pub mod pipeline;
pub mod selection;
pub mod stages;
