//! Microhaplotype genotype calling from per-read allele observations.
//!
//! The crate models a panel of microhaplotype markers, each defined by a
//! fixed set of allele-defining SNP (ADS) coordinates.  For every marker it
//! collects, per aligned read, the alleles observed at the marker's ADS
//! positions (a sketch), tallies the complete sketches, and applies a
//! two-stage threshold filter that separates true alleles from sequencing
//! noise, producing a genotype call with full provenance.

pub mod analyzer;
pub mod caller;
pub mod counter;
pub mod definition;
pub mod lex;
pub mod observer;
pub mod panel;
pub mod parameters;
pub mod profile;
pub mod read;
pub mod result;
pub mod thresholds;
