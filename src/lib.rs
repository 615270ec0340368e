//! Work allocation and result aggregation for scanning a numeric keyspace of
//! tickets for a flag.

pub mod lookup;
pub mod pattern;
pub mod pool;
pub mod skipseq;
