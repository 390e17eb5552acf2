//! Options of a tile source as a style document states them.

use vstd::prelude::*;

verus! {

/// How a tile's row is counted in a URL: from the top (XYZ) or from the
/// bottom (TMS).
#[derive(Debug, Clone, Copy, PartialEq, Eq, Structural)]
pub enum Scheme {
    XYZ,
    TMS,
}

/// The encoding of elevation in a raster-dem source.
#[derive(Debug, Clone, Copy, PartialEq, Eq, Structural)]
pub enum Encoding {
    Terrarium,
    Mapbox,
}

/// The scheme of a source that names none.
pub fn default_scheme() -> (result: Scheme)
    ensures
        result == Scheme::XYZ,
{
    Scheme::XYZ
}

/// The encoding of a raster-dem source that names none.
pub fn default_encoding() -> (result: Encoding)
    ensures
        result == Encoding::Mapbox,
{
    Encoding::Mapbox
}

/// Whether a GeoJSON source clusters its points when it does not say.
pub fn default_cluster() -> (result: bool)
    ensures
        !result,
{
    false
}

/// Whether a GeoJSON source generates feature ids when it does not say.
pub fn default_generate_id() -> (result: bool)
    ensures
        !result,
{
    false
}

/// Whether a GeoJSON source computes line metrics when it does not say.
pub fn default_line_metrics() -> (result: bool)
    ensures
        !result,
{
    false
}

} // verus!
