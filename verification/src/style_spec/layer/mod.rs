//! The layers of a style.

use vstd::prelude::*;

pub mod circle;
pub mod fill;
pub mod fill_extrusion;
pub mod hillshade;
pub mod line;
pub mod raster;
pub mod symbol;

pub use circle::Pitch;
pub use line::Cap;
pub use line::Join;
pub use raster::Resampling;
pub use symbol::Alignment;
pub use symbol::IconAnchor;
pub use symbol::IconTextFit;
pub use symbol::SymbolPlacement;
pub use symbol::SymbolZOrder;
pub use symbol::TextAnchor;
pub use symbol::TextJustify;
pub use symbol::TextTransform;
pub use symbol::TextVariableAnchor;
pub use symbol::TextWritingMode;

verus! {

/// Whether a layer is drawn.
#[derive(Debug, Clone, Copy, PartialEq, Eq, Structural)]
pub enum Visibility {
    Visible,
    Hidden,
}

impl Default for Visibility {
    fn default() -> (result: Self)
        ensures
            result == Visibility::Visible,
    {
        Visibility::Visible
    }
}

} // verus!
