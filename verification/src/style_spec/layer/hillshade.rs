//! Hillshade layers.

use crate::style_spec::types::Anchor;
use vstd::prelude::*;

verus! {

/// The light of a hillshade is fixed to the viewport unless the style says otherwise.
pub fn default_illumination_anchor() -> (result: Anchor)
    ensures
        result == Anchor::Viewport,
{
    Anchor::Viewport
}

} // verus!
