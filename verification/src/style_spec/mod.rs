//! The parts of a style document that the tile modules read.

pub mod layer;
pub mod source;
pub mod types;

pub use layer::Visibility;
pub use source::Encoding;
pub use source::Scheme;
pub use types::Anchor;
