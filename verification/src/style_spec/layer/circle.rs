//! Circle layers.

use crate::style_spec::types::Anchor;
use vstd::prelude::*;

verus! {

/// The frame that circles are aligned or scaled to when the map is pitched.
#[derive(Debug, Clone, Copy, PartialEq, Eq, Structural)]
pub enum Pitch {
    MapPlane,
    Viewport,
}

impl Default for Pitch {
    fn default() -> (result: Self)
        ensures
            result == Pitch::MapPlane,
    {
        Pitch::MapPlane
    }
}

/// Circles face the viewport unless the style says otherwise.
pub fn default_pitch_alignment() -> (result: Pitch)
    ensures
        result == Pitch::Viewport,
{
    Pitch::Viewport
}

/// Circles scale with the map unless the style says otherwise.
pub fn default_pitch_scale() -> (result: Pitch)
    ensures
        result == Pitch::MapPlane,
{
    Pitch::MapPlane
}

/// A circle's translation is fixed to the map unless the style says otherwise.
pub fn default_translate_anchor() -> (result: Anchor)
    ensures
        result == Anchor::MapPlane,
{
    Anchor::MapPlane
}

} // verus!
