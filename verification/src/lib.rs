//! Aggregation of weather-station measurements: parsing of `name;value` lines,
//! per-station statistics and the final report.

pub mod challenge;
pub mod order;
pub mod search;
pub mod station_name;
pub mod stats;
pub mod summary;
pub mod table;
pub mod text;
pub mod v1;
pub mod v2;
pub mod value;
