//! The toolkit's modules, leaves first.

pub mod dfa;
pub mod blocks;
pub mod forest;
pub mod history;
pub mod state_partition;
pub mod merge;
pub mod quotient;
pub mod closure;
pub mod laws;
pub mod merge_data;
pub mod rpni;
pub mod edsm;
pub mod consistency;
