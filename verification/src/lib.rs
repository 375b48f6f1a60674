//! Parallel construction of the suffix array and the longest-common-prefix
//! (LCP) array of a byte sequence.
//!
//! The suffix array is the permutation of all suffix start offsets ordered
//! lexicographically by the suffix beginning there; the LCP array gives, for
//! each adjacent pair of suffixes in that order, the length of their shared
//! prefix.

pub mod laws;
pub mod lcp;
pub mod order;
pub mod sa;

pub use lcp::lcp_array_parallel;
pub use lcp::lcp_array_serial;
pub use sa::construct_suffix_array_parallel;
