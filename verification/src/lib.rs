pub mod cache;
pub mod compress;
pub mod config;
pub mod directory;
pub mod error;
pub mod fetcher;
pub mod hilbert;
pub mod models;
pub mod paths;
pub mod pmtiles;
pub mod s3utils;
pub mod style;
pub mod varint;
