//! Parameters of the FrodoPIR backend.
use vstd::prelude::*;

verus! {

/// Tunable knobs of the backend.
#[derive(Clone, Copy, Debug, PartialEq, Eq, Structural)]
pub struct FrodoConfig {
    /// LWE dimension.
    pub lwe_dim: u32,
}

impl FrodoConfig {
    /// A configuration with the given LWE dimension.
    pub fn with_lwe_dim(lwe_dim: u32) -> (c: Self)
        ensures
            c.lwe_dim == lwe_dim,
    {
        FrodoConfig { lwe_dim }
    }
}

impl Default for FrodoConfig {
    fn default() -> (c: Self)
        ensures
            c.lwe_dim == DEFAULT_LWE_DIM,
    {
        FrodoConfig { lwe_dim: DEFAULT_LWE_DIM }
    }
}

/// LWE dimension of the default configuration.
pub const DEFAULT_LWE_DIM: u32 = 1566;

/// Public LWE parameters of one segment.
#[derive(Clone, Copy, Debug)]
pub struct FrodoParams {
    /// LWE dimension.
    pub lwe_dim: u32,
    /// Bits of a plaintext cell.
    pub plaintext_bits: u32,
    /// Seed of the public matrix.
    pub seed: [u8; 16],
}

impl FrodoParams {
    /// Puts the parameters together.
    pub fn new(lwe_dim: u32, plaintext_bits: u32, seed: [u8; 16]) -> (p: Self)
        ensures
            p.lwe_dim == lwe_dim,
            p.plaintext_bits == plaintext_bits,
            p.seed == seed,
    {
        FrodoParams { lwe_dim, plaintext_bits, seed }
    }
}

} // verus!
