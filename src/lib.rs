//! Bins geolocated height observations into a regular longitude/latitude
//! grid and summarises the heights that fall in each cell.

pub mod decimal;
pub mod grid;
pub mod histogram;
pub mod laws;
pub mod pipeline;
pub mod reads;
pub mod stats;
