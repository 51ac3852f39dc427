//! Quantile digests over binary64 numbers: aggregation steps, queries, histograms, densities
//! and the byte format, all with exact contracts.

pub mod aggregate;
pub mod binary64;
pub mod cells;
pub mod density;
pub mod digest;
pub mod distribution;
pub mod histogram;
pub mod kernel;
pub mod laws;
pub mod quantile;
pub mod summary;
pub mod weights;
pub mod wire;
