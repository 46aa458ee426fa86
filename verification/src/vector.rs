//! Vector index configuration and its deterministic random source.

use vstd::prelude::*;

verus! {

/// HNSW parameters.
#[derive(Debug, Clone, Copy, PartialEq, Eq, Structural)]
pub struct HnswParams {
    /// Most connections per node (layer 0 uses twice as many).
    pub m: usize,
    /// Beam width while building.
    pub ef_construction: usize,
    /// Beam width while searching (at least `k` is used).
    pub ef_search: usize,
    /// Seed of the level sampling; same seed and insertion order give the
    /// same index.
    pub seed: u64,
}

impl Default for HnswParams {
    fn default() -> (r: HnswParams)
        ensures
            r == (HnswParams { m: 16, ef_construction: 200, ef_search: 50, seed: 0x9E37_79B9_7F4A_7C15 }),
    {
        HnswParams { m: 16, ef_construction: 200, ef_search: 50, seed: 0x9E37_79B9_7F4A_7C15 }
    }
}

/// The integer configuration that an index derives from its parameters.
#[derive(Debug, Clone, Copy, PartialEq, Eq, Structural)]
pub struct HnswConfig {
    pub dims: usize,
    pub m: usize,
    /// Connections on layer 0: `2 * m`.
    pub m_max0: usize,
    pub ef_construction: usize,
    pub ef_search: usize,
    pub seed: u64,
}

/// Why parameters were refused.
#[derive(Debug, Clone, Copy, PartialEq, Eq, Structural)]
pub enum HnswParamsError {
    /// The dimension must be positive.
    ZeroDims,
    /// `m` must be at least 2.
    SmallM,
    /// The xorshift seed must not be 0.
    ZeroSeed,
    /// `2 * m` does not fit in a `usize`.
    LargeM,
}

/// Checks the parameters of an index of `dims` dimensions and derives its
/// configuration (beam widths at least 1).
pub fn hnsw_config(dims: usize, params: HnswParams) -> (r: Result<HnswConfig, HnswParamsError>)
    ensures
        dims == 0 ==> r == Err::<HnswConfig, HnswParamsError>(HnswParamsError::ZeroDims),
        dims > 0 && params.m < 2 ==> r == Err::<HnswConfig, HnswParamsError>(HnswParamsError::SmallM),
        dims > 0 && params.m >= 2 && params.seed == 0 ==> r == Err::<HnswConfig, HnswParamsError>(
            HnswParamsError::ZeroSeed,
        ),
        dims > 0 && params.m >= 2 && params.seed != 0 && 2 * params.m > usize::MAX ==> r == Err::<
            HnswConfig,
            HnswParamsError,
        >(HnswParamsError::LargeM),
        dims > 0 && params.m >= 2 && params.seed != 0 && 2 * params.m <= usize::MAX ==> r == Ok::<
            HnswConfig,
            HnswParamsError,
        >(
            HnswConfig {
                dims,
                m: params.m,
                m_max0: (2 * params.m) as usize,
                ef_construction: if params.ef_construction >= 1 {
                    params.ef_construction
                } else {
                    1
                },
                ef_search: if params.ef_search >= 1 {
                    params.ef_search
                } else {
                    1
                },
                seed: params.seed,
            },
        ),
{
    if dims == 0 {
        return Err(HnswParamsError::ZeroDims);
    }
    if params.m < 2 {
        return Err(HnswParamsError::SmallM);
    }
    if params.seed == 0 {
        return Err(HnswParamsError::ZeroSeed);
    }
    if params.m > usize::MAX / 2 {
        return Err(HnswParamsError::LargeM);
    }
    Ok(
        HnswConfig {
            dims,
            m: params.m,
            m_max0: params.m * 2,
            ef_construction: if params.ef_construction >= 1 {
                params.ef_construction
            } else {
                1
            },
            ef_search: if params.ef_search >= 1 {
                params.ef_search
            } else {
                1
            },
            seed: params.seed,
        },
    )
}

/// One xorshift64 step of the state.
pub open spec fn xorshift_step(x: u64) -> u64 {
    let a = x ^ (x << 13u64);
    let b = a ^ (a >> 7u64);
    b ^ (b << 17u64)
}

/// xorshift64* deterministic random numbers.
#[derive(Debug, Clone, Copy, PartialEq, Eq, Structural)]
pub struct XorShift64(pub u64);

impl XorShift64 {
    /// Advances the state one xorshift64 step and returns the new state
    /// times `0x2545_F491_4F6C_DD1D`, wrapping.
    pub fn next(&mut self) -> (r: u64)
        ensures
            final(self).0 == xorshift_step(old(self).0),
            r == (xorshift_step(old(self).0) as int * 0x2545_F491_4F6C_DD1D) % 0x1_0000_0000_0000_0000,
    {
        let mut x = self.0;
        x = x ^ (x << 13u64);
        x = x ^ (x >> 7u64);
        x = x ^ (x << 17u64);
        self.0 = x;
        x.wrapping_mul(0x2545_F491_4F6C_DD1D)
    }
}

} // verus!
