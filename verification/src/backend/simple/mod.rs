//! Samplers of the backend with uniform secrets.
pub mod sampler;
