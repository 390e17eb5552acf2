//! Fill-extrusion layers.

use crate::style_spec::types::Anchor;
use vstd::prelude::*;

verus! {

/// An extrusion's translation is fixed to the map unless the style says otherwise.
pub fn default_translate_anchor() -> (result: Anchor)
    ensures
        result == Anchor::MapPlane,
{
    Anchor::MapPlane
}

/// The sides of an extrusion are shaded by a vertical gradient unless the style says otherwise.
pub fn default_vertical_gradient() -> (result: bool)
    ensures
        result,
{
    true
}

} // verus!
