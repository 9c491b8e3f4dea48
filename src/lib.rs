//! Recolours a raster image as a mosaic of blocks, each painted with the
//! nearest still-unused colour from a pool of random candidates.

pub mod pixel;
pub mod average;
pub mod pool;
pub mod cache;
pub mod engine;
pub mod filetype;
pub mod cli;
