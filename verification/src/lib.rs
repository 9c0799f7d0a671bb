//! Duplicate-file detection by progressive multi-stage grouping.
//!
//! Candidate files are narrowed through a pipeline of grouping passes, each
//! keyed by a cheaper signal than the next: base name, byte size, a bounded
//! content-prefix digest, and finally the full-content digest. Every pass
//! keeps only classes of two or more files, so expensive hashing only ever
//! touches files that agreed on everything cheaper. Surviving groups are
//! aggregated into a report keyed and ordered by total reclaimable size.
//!
//! The library computes on plain values: a candidate carries its path, base
//! name, metadata size and content bytes, and the caller performs all file
//! system work before and after.

pub mod aggregate;
pub mod candidate;
pub mod grouping;
pub mod pipeline;
pub mod signature;
pub mod size;

use vstd::prelude::*;

verus! {

} // verus!
