//! Per-core temperature series: parsing of sample lines, grouping into
//! per-channel series, and exact piecewise-linear and least-squares fits.
pub mod temperature_parser;
pub mod series;
pub mod fit;
pub mod piece_wise_linear_interpolation;
pub mod least_squares_approximation;
