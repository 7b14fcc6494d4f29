//! Barcode tallying and error-correction by edit-distance merging.
//!
//! A run of the tool observes many short "barcode" strings, tallies how often
//! each distinct barcode occurs, and then reconciles the table: barcodes with
//! low counts that look like corrupted copies of high-count "endpoint"
//! barcodes are folded into those endpoints.  The modules below hold the
//! verified core: the frequency table and its invariant, the edit-distance
//! specification, the collector that builds the table from extracted labels,
//! and the reconciler that performs the merge.

pub mod collect;
pub mod distance;
pub mod reconcile;
pub mod table;
