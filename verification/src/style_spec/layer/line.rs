//! Line layers.

use crate::style_spec::types::Anchor;
use vstd::prelude::*;

verus! {

/// How the ends of a line are drawn.
#[derive(Debug, Clone, Copy, PartialEq, Eq, Structural)]
pub enum Cap {
    Butt,
    Round,
    Square,
}

impl Default for Cap {
    fn default() -> (result: Self)
        ensures
            result == Cap::Butt,
    {
        Cap::Butt
    }
}

/// How the segments of a line are joined.
#[derive(Debug, Clone, Copy, PartialEq, Eq, Structural)]
pub enum Join {
    Bevel,
    Round,
    Miter,
}

impl Default for Join {
    fn default() -> (result: Self)
        ensures
            result == Join::Miter,
    {
        Join::Miter
    }
}

/// A line's translation is fixed to the map unless the style says otherwise.
pub fn default_translate_anchor() -> (result: Anchor)
    ensures
        result == Anchor::MapPlane,
{
    Anchor::MapPlane
}

} // verus!
