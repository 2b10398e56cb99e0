//! A verified gene-expression counting core.
//!
//! The crate counts how many aligned reads (or read pairs) fall on each
//! annotated gene.  It consumes already-decoded alignment records and an
//! already-built feature index, and produces a per-gene count table together
//! with bookkeeping totals (filtered, unmapped, ambiguous, no-feature).

pub mod cigar;
pub mod count;
pub mod features;
pub mod record;
pub mod record_pairs;
pub mod strand;

pub use crate::strand::{Strand, StrandSpecification};
