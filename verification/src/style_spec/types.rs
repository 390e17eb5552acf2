//! Types shared by the layers of a style.

use vstd::prelude::*;

verus! {

/// The frame that a translation or a light is fixed to: the map or the viewport.
#[derive(Debug, Clone, Copy, PartialEq, Eq, Structural)]
pub enum Anchor {
    MapPlane,
    Viewport,
}

impl Default for Anchor {
    fn default() -> (result: Self)
        ensures
            result == Anchor::Viewport,
    {
        Anchor::Viewport
    }
}

} // verus!
