//! FrodoPIR: index PIR from learning with errors, with ternary secrets and errors.
//!
//! The ciphertext modulus is `q = 2^32`, the plaintext modulus `p = 2^plaintext_bits`, and
//! `delta = q / p` scales between them. `A` comes from a seed; the hint is `H = A^T * D`. A
//! query for a row is `b = A * s + e + delta * unit(row)`, its answer is `a = b^T * D`, and
//! decoding rounds `a - s^T * H` to the nearest multiple of `delta`.
pub mod backend;
pub mod hint;
pub mod laws;
pub mod params;
pub mod patching;
pub mod sampler;
pub mod sampling_laws;
pub mod scaling;
pub mod session_laws;
