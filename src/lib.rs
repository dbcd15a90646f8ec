//! Per-station temperature statistics over `key;value` records held in a byte
//! buffer: line-aligned partitioning, per-partition aggregation, an exact and
//! order-independent merge, and a key-sorted report.
pub mod tenths;
pub mod stats;
pub mod table;
pub mod lines;
pub mod partition;
pub mod aggregate;
pub mod report;
pub mod decode;
