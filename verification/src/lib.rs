//! Mean signal of genome-wide tracks over genomic regions, as a table of
//! regions by tracks.
//!
//! The crate holds the rules of the computation: which regions are accepted,
//! which tracks are processed and in what order, how a column is filled region
//! by region, and when columns form a table. Reading track files and the
//! floating-point mean itself are left to the caller, which hands the library
//! one 32-bit word per region.

pub mod column;
pub mod name;
pub mod region;
pub mod table;
pub mod track;
