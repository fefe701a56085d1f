//! The EDR request model and the encodings of its answers.
pub mod covjson;
pub mod geojson;
pub mod params;
pub mod query;
pub mod region;
pub mod result;
pub mod scan;
pub mod wkt;
