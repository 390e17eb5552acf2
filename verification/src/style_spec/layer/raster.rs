//! Raster layers.

use vstd::prelude::*;

verus! {

/// How a raster is sampled when it is scaled.
#[derive(Debug, Clone, Copy, PartialEq, Eq, Structural)]
pub enum Resampling {
    Linear,
    Nearest,
}

impl Default for Resampling {
    fn default() -> (result: Self)
        ensures
            result == Resampling::Linear,
    {
        Resampling::Linear
    }
}

/// Rasters are sampled linearly unless the style says otherwise.
pub fn default_resampling() -> (result: Resampling)
    ensures
        result == Resampling::Linear,
{
    Resampling::Linear
}

} // verus!
