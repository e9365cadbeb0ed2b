//! Revela's engine and catalog rules: raster geometry, thumbnail keys,
//! preview caching, duplicate clustering, import and export naming.

pub mod raster;
pub mod geometry;
pub mod pipeline;
pub mod text;
pub mod decode;
pub mod thumbs;
pub mod cache;
pub mod dups;
pub mod imaging;
pub mod catalog;
pub mod histogram;
pub mod commands;
