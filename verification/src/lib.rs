//! A bounded-concurrency breadth-first web crawler core, together with a
//! collection of small verified utilities (arbitrary-precision decimal
//! arithmetic, sorting and searching, string packing, and friends).
//!
//! The crawler is organised as a pure state machine: the scheduler's
//! decisions live in [`crawl`] with exact contracts, the laws of whole
//! crawls — deduplication, termination, completeness, backpressure,
//! isolation under failure — are proved in [`crawl_props`], and network
//! transport and the output channel are driven by an ordinary host
//! program.

pub mod bignum;
pub mod bits;
pub mod counter;
pub mod crawl;
pub mod crawl_props;
pub mod grep;
pub mod letters;
pub mod links;
pub mod sorting;
pub mod strings;
pub mod unpack;
pub mod vecops;
