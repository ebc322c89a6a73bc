//! Cross-chain event ingestion: validator tallies over pending external blocks,
//! reorganisation search and tally, and the risk-weighted ingression queue.

pub mod chains;
pub mod ingress;
pub mod tally;
pub mod blocks;
pub mod reorg;
pub mod worker;
