//! Laws that relate several queries, or hold of all answers of one.

pub mod adding_up;
pub mod automatic;
pub mod bandwidths;
pub mod bins;
pub mod common_factor;
pub mod curves;
pub mod densities;
pub mod grids;
pub mod histograms;
pub mod interpolation;
pub mod kernels;
pub mod quantiles;
pub mod relative_weights;
pub mod round_trip;
pub mod shares;
pub mod spreading;
pub mod totals;
pub mod unweighted;
pub mod weighting;
pub mod write_time;
