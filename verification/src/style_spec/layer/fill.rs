//! Fill layers.

use crate::style_spec::types::Anchor;
use vstd::prelude::*;

verus! {

/// Fills are antialiased unless the style says otherwise.
pub fn default_antialias() -> (result: bool)
    ensures
        result,
{
    true
}

/// A fill's translation is fixed to the map unless the style says otherwise.
pub fn default_translate_anchor() -> (result: Anchor)
    ensures
        result == Anchor::MapPlane,
{
    Anchor::MapPlane
}

} // verus!
