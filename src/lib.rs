//! Counting aligned sequencing reads per genomic feature.
//!
//! The library holds the decisions of the counting engine: the interval index of
//! features, the partition of each reference sequence into chunks that never cut
//! a feature interval, the per-chunk scan with its deduplication of reads that
//! touch a feature through several blocks or several alignment records, and the
//! summation of per-chunk results into one table of counts.
pub mod tree;
pub mod chunks;
pub mod counting;
pub mod totals;
