//! Structures to store and retrieve N-dimensional sparse data.

pub mod coo;
pub mod csl;
pub mod dims;
pub mod error;
pub mod rnd;
pub mod utils;
