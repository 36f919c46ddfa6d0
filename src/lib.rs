//! Immutable, bit-packed boolean columns with verified slicing, filtering,
//! scattering and replication kernels.

pub mod bitmap;
pub mod builder;
pub mod column;
pub mod laws;
pub mod watcher;
