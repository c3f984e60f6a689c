//! Genome-to-genome dot-plot model: scaffold offset tables, stitching of
//! per-sequence alignment records into genome-wide segments, sequence
//! filters with plot subsetting, and rectangular region queries.

pub mod filter;
pub mod laws;
pub mod offsets;
pub mod plot;
pub mod segment;
pub mod spatial;
pub mod subset;
pub mod text;
