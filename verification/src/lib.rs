//! LKV is a simple collection of key-value containers with linear lookup/search
//! times. Keys and values are stored in simple vectors. The standard library
//! containers should be preferred for applications expecting lots of data,
//! but these containers are potentially preferable for smaller operations.
//!
//! [`OTM`] is the container. Its contracts are stated over the model in [`model`];
//! [`insertion`] and [`merging`] prove what follows from them.

pub mod insertion;
pub mod merging;
pub mod model;
pub mod otm;

pub use otm::OTM;
