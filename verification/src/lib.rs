//! Incremental keyword PIR from learning with errors.
pub mod arith;
pub mod backend;
pub mod bits;
pub mod cuckoo_store;
pub mod encoding_laws;
pub mod fingerprint;
pub mod geometry;
pub mod geometry_laws;
pub mod hash;
pub mod hash_laws;
pub mod lwe;
pub mod matrix;
pub mod params;
pub mod params_laws;
pub mod pir_params;
pub mod serialization;
pub mod serialization_laws;
pub mod server;
pub mod text;
pub mod wire;
