//! Datasets, data loaders, and transforms.

pub mod batch;
pub mod laws;
pub mod loader;
pub mod mnist;
pub mod rng;
pub mod transform;
