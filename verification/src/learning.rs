//! Training-sample generation on top of the market-data caches.

pub mod sampler;
